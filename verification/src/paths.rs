//! Names of records in a repository.

use crate::path::{join, joined_path};
use crate::text::{chars_of, parse_bounded, split, to_decimal};
#[allow(unused_imports)]
use crate::{
    text::{
        all_digits, begins_with, decimal, ends_cleanly, finishes_with, joined,
        law_decimal_round_trip, law_joining_undoes_splitting, lemma_decimal, lemma_ends_cleanly,
        lemma_first_piece, lemma_pieces_last, lemma_pieces_step, occurs, occurs_at, parsed, pieces,
    },
};
use vstd::prelude::*;

verus! {

/// What stands between the parts of a record's name.
pub const SEPARATOR: &'static str = "::_::";

/// The characters that a directory's key keeps.
pub open spec fn kept_in_key(c: char) -> bool {
    ('a' <= c <= 'z') || ('A' <= c <= 'Z') || ('0' <= c <= '9') || c == '.' || c == '_' || c == '-'
}

/// A character of a directory as its key has it.
pub open spec fn key_char(c: char) -> char {
    if kept_in_key(c) {
        c
    } else {
        '_'
    }
}

/// A directory's text without one leading slash.
pub open spec fn unrooted(directory: Seq<char>) -> Seq<char> {
    if directory.len() > 0 && directory[0] == '/' {
        directory.subrange(1, directory.len() as int)
    } else {
        directory
    }
}

/// The key of a directory: its text without the leading slash, every character that names do
/// not keep replaced by `_`; `root` where nothing is left.
pub open spec fn key_of(directory: Seq<char>) -> Seq<char> {
    let text = unrooted(directory);
    if text.len() == 0 {
        "root"@
    } else {
        Seq::new(text.len(), |i: int| key_char(text[i]))
    }
}

/// The name of a record.
pub open spec fn name_of_record(key: Seq<char>, leaf: Seq<char>, revision: nat, kind: char) -> Seq<char> {
    key + SEPARATOR@ + leaf + SEPARATOR@ + decimal(revision) + SEPARATOR@ + seq![kind]
}

/// What the name of a record of a kind says: directory key, file name and revision.
pub open spec fn record_of_name(name: Seq<char>, kind: char) -> Option<(Seq<char>, Seq<char>, nat)> {
    let p = pieces(name, SEPARATOR@);
    if p.len() == 4 && p[3] == seq![kind] && parsed(p[2], u64::MAX as nat) is Some {
        Some((p[0], p[1], parsed(p[2], u64::MAX as nat)->0))
    } else {
        None
    }
}

/// The key of a directory.
pub fn directory_key(directory: &str) -> (r: String)
    ensures
        r@ == key_of(directory@),
{
    let x: Vec<char> = chars_of(directory);
    let start: usize = if x.len() > 0 && x[0] == '/' {
        1
    } else {
        0
    };
    if x.len() == start {
        return "root".to_owned();
    }
    let mut out: String = String::new();
    let mut i: usize = start;
    let ghost mapped = Seq::new(unrooted(directory@).len(), |i: int| key_char(unrooted(directory@)[i]));
    while i < x.len()
        invariant
            x@ == directory@,
            start <= i <= x.len(),
            start == if x@.len() > 0 && x@[0] == '/' { 1int } else { 0 },
            mapped == Seq::new(unrooted(directory@).len(), |i: int| key_char(unrooted(directory@)[i])),
            out@ == mapped.take(i - start),
        decreases x.len() - i,
    {
        let c: char = x[i];
        assert(unrooted(directory@)[i - start] == c);
        if (c >= 'a' && c <= 'z') || (c >= 'A' && c <= 'Z') || (c >= '0' && c <= '9') || c == '.'
            || c == '_' || c == '-' {
            out.push(c);
        } else {
            out.push('_');
        }
        assert(mapped.take(i + 1 - start) =~= mapped.take(i - start).push(mapped[i - start]));
        i += 1;
    }
    assert(mapped.take(x@.len() - start) =~= mapped);
    out
}

/// The name of a record.
pub fn record_name(key: &str, leaf: &str, revision: u64, kind: char) -> (r: String)
    ensures
        r@ == name_of_record(key@, leaf@, revision as nat, kind),
{
    let mut out: String = key.to_owned();
    out.append(SEPARATOR);
    out.append(leaf);
    out.append(SEPARATOR);
    out.append(to_decimal(revision).as_str());
    out.append(SEPARATOR);
    let ghost before = out@;
    out.push(kind);
    assert(out@ =~= before + seq![kind]);
    out
}

/// What the name of a record of a kind says; none for any other name.
pub fn parse_record_name(name: &str, expected_kind: char) -> (r: Option<(String, String, u64)>)
    ensures
        match r {
            Some(p) => record_of_name(name@, expected_kind) == Some((p.0@, p.1@, p.2 as nat)),
            None => record_of_name(name@, expected_kind) is None,
        },
{
    proof {
        reveal_strlit("::_::");
    }
    let p: Vec<String> = split(name, SEPARATOR);
    assert(pieces(name@, SEPARATOR@).len() == p@.len());
    if p.len() != 4 {
        return None;
    }
    let kind: Vec<char> = chars_of(p[3].as_str());
    assert(pieces(name@, SEPARATOR@)[3] == p@[3]@);
    assert(pieces(name@, SEPARATOR@)[2] == p@[2]@);
    assert(pieces(name@, SEPARATOR@)[1] == p@[1]@);
    assert(pieces(name@, SEPARATOR@)[0] == p@[0]@);
    if kind.len() != 1 || kind[0] != expected_kind {
        assert(seq![expected_kind].len() == 1 && seq![expected_kind][0] == expected_kind);
        return None;
    }
    assert(p@[3]@ =~= seq![expected_kind]);
    match parse_bounded(p[2].as_str(), u64::MAX) {
        Some(revision) => Some((p[0].clone(), p[1].clone(), revision)),
        None => None,
    }
}

/// Where a record stands.
pub fn record_path(root: &str, key: &str, leaf: &str, revision: u64, kind: char) -> (r: String)
    ensures
        r@ == joined_path(root@, name_of_record(key@, leaf@, revision as nat, kind)),
{
    join(root, record_name(key, leaf, revision, kind).as_str())
}

/// The key of a directory can always be told from what follows it in a name.
pub proof fn law_key_ends_cleanly(directory: Seq<char>)
    ensures
        ends_cleanly(key_of(directory), SEPARATOR@),
{
    reveal_strlit("::_::");
    reveal_strlit("root");
    let key = key_of(directory);
    assert forall|i: int| 0 <= i < key.len() implies key[i] != SEPARATOR@[0] by {
        if unrooted(directory).len() == 0 {
            assert(key == "root"@);
        } else {
            assert(key[i] == key_char(unrooted(directory)[i]));
        }
    }
    lemma_ends_cleanly(key, SEPARATOR@);
}

/// A record's name gives back what it was made of, whatever the key and the file name, as long as
/// the separator behind each of them first stands right behind it.
pub proof fn law_record_name_round_trip(
    key: Seq<char>,
    leaf: Seq<char>,
    revision: nat,
    kind: char,
)
    requires
        ends_cleanly(key, SEPARATOR@),
        ends_cleanly(leaf, SEPARATOR@),
        revision <= u64::MAX,
    ensures
        record_of_name(name_of_record(key, leaf, revision, kind), kind) == Some((key, leaf, revision)),
{
    reveal_strlit("::_::");
    let sep = SEPARATOR@;
    let number = decimal(revision);
    let last = seq![kind];
    lemma_decimal(revision);
    assert forall|i: int| 0 <= i < number.len() implies number[i] != sep[0] by {
        assert(all_digits(number));
    }
    lemma_ends_cleanly(number, sep);
    assert(!occurs(last, sep)) by {
        assert forall|i: int| !occurs_at(last, sep, i) by {}
    }
    lemma_pieces_last(last, sep);
    lemma_pieces_step(number, sep, last);
    lemma_pieces_step(leaf, sep, number + sep + last);
    lemma_pieces_step(key, sep, leaf + sep + (number + sep + last));
    let name = name_of_record(key, leaf, revision, kind);
    assert(name =~= key + sep + (leaf + sep + (number + sep + last)));
    assert(pieces(name, sep) =~= seq![key, leaf, number, last]);
    law_decimal_round_trip(revision, u64::MAX as nat);
}

/// What the name of a record says can be told apart in a name again.
pub proof fn lemma_record_parts(name: Seq<char>, kind: char)
    requires
        record_of_name(name, kind) is Some,
    ensures
        ({
            let (key, leaf, revision) = record_of_name(name, kind)->0;
            ends_cleanly(key, SEPARATOR@) && ends_cleanly(leaf, SEPARATOR@) && revision <= u64::MAX
        }),
{
    reveal_strlit("::_::");
    let rest = lemma_first_piece(name, SEPARATOR@);
    let p = pieces(name, SEPARATOR@);
    assert(pieces(rest, SEPARATOR@) =~= p.subrange(1, 4)) by {
        let q = pieces(rest, SEPARATOR@);
        assert(p.len() == 1 + q.len());
        assert forall|i: int| 0 <= i < q.len() implies q[i] == p[i + 1] by {}
    }
    let more = lemma_first_piece(rest, SEPARATOR@);
}

/// Records of different files or revisions have different names.
pub proof fn law_record_names_differ(
    key: Seq<char>,
    leaf: Seq<char>,
    revision: nat,
    other_key: Seq<char>,
    other_leaf: Seq<char>,
    other_revision: nat,
    kind: char,
)
    requires
        ends_cleanly(key, SEPARATOR@),
        ends_cleanly(leaf, SEPARATOR@),
        ends_cleanly(other_key, SEPARATOR@),
        ends_cleanly(other_leaf, SEPARATOR@),
        revision <= u64::MAX,
        other_revision <= u64::MAX,
        (key, leaf, revision) != (other_key, other_leaf, other_revision),
    ensures
        name_of_record(key, leaf, revision, kind) != name_of_record(
            other_key,
            other_leaf,
            other_revision,
            kind,
        ),
{
    law_record_name_round_trip(key, leaf, revision, kind);
    law_record_name_round_trip(other_key, other_leaf, other_revision, kind);
}

/// The key of a directory has its letters, digits, dots, underscores and hyphens in their places,
/// and an underscore in place of every other character; the slash that it begins with is left out.
/// The root has a key of its own.
pub proof fn law_key_keeps_the_plain_characters(rest: Seq<char>, i: int)
    requires
        0 <= i < rest.len(),
    ensures
        ({
            let key = key_of(seq!['/'] + rest);
            let c = rest[i];
            &&& key.len() == rest.len()
            &&& 'a' <= c <= 'z' || 'A' <= c <= 'Z' || '0' <= c <= '9' || c == '.' || c == '_' || c
                == '-' ==> key[i] == c
            &&& !('a' <= c <= 'z' || 'A' <= c <= 'Z' || '0' <= c <= '9' || c == '.' || c == '_' || c
                == '-') ==> key[i] == '_'
            &&& rest[0] != '/' ==> key_of(rest) == key
        }),
        key_of(seq!['/']) == "root"@,
        key_of(Seq::empty()) == "root"@,
{
    let p = seq!['/'] + rest;
    assert(p[0] == '/');
    assert(p.subrange(1, p.len() as int) =~= rest);
    assert(seq!['/'].subrange(1, 1) =~= Seq::<char>::empty());
}

/// The record that a name is of: four parts, of which the last is the kind and the third a number.
/// No name is of two kinds.
pub proof fn law_name_is_of_one_kind(name: Seq<char>, kind: char, other: char)
    ensures
        record_of_name(name, kind) is Some && record_of_name(name, other) is Some ==> kind == other,
        record_of_name(name, kind) matches Some((key, leaf, number)) ==> {
            &&& finishes_with(name, SEPARATOR@ + seq![kind])
            &&& begins_with(name, key + SEPARATOR@ + leaf + SEPARATOR@)
            &&& !occurs(key, SEPARATOR@) && !occurs(leaf, SEPARATOR@) && number <= u64::MAX
        },
{
    reveal_strlit("::_::");
    let p = pieces(name, SEPARATOR@);
    if record_of_name(name, kind) is Some {
        if record_of_name(name, other) is Some {
            assert(p[3][0] == kind && p[3][0] == other);
        }
        law_joining_undoes_splitting(name, SEPARATOR@);
        let abc = p.drop_last();
        let ab = abc.drop_last();
        let a = ab.drop_last();
        assert(joined(a, SEPARATOR@) == p[0]);
        assert(joined(ab, SEPARATOR@) == p[0] + SEPARATOR@ + p[1]);
        assert(joined(abc, SEPARATOR@) == p[0] + SEPARATOR@ + p[1] + SEPARATOR@ + p[2]);
        let front = p[0] + SEPARATOR@ + p[1] + SEPARATOR@;
        assert(name == front + p[2] + SEPARATOR@ + p[3]);
        assert(name.subrange(0, front.len() as int) =~= front);
        let end = SEPARATOR@ + seq![kind];
        assert(name.subrange(name.len() - end.len(), name.len() as int) =~= end);
    }
}

} // verus!
