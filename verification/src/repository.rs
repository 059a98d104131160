//! What holds of a repository as a whole: what it lists after a revision was published, a tag was
//! written or a file was restored.
//!
//! Everything here is stated of a model: the files of a repository by directory and name, and what
//! reading them gives.

#[allow(unused_imports)]
use crate::{
    config::ConfigView,
    failure::{Failure, FailureView},
    mutation::{
        access_text, after_steps, ends_plainly, file_step, greatest_number, is_field, is_line,
        is_usable, latest_place, law_access_record_round_trip, law_latest_is_greatest,
        law_next_number_is_fresh, law_next_number_is_one_more, law_published_revision_reads_back,
        lemma_after_steps, lemma_greatest_bound, lemma_greatest_given, lemma_greatest_usable,
        lemma_text_round_trip, lemma_written, link_name, link_step, next_number, nothing_stale,
        number_for, payload_of, prepared_from, publication_steps, published_revision,
        read_from_files, restore_after, restore_recording, restore_start, AllocationRead,
        ContentView, CreatedRevision, Files, Place, PreparedView, RestoreEvent, RestoreStage,
        RestoreView,
    },
    path::{joined_path, same_path_text},
    paths::{
        law_record_name_round_trip, law_record_names_differ, lemma_record_parts, name_of_record,
        record_of_name, SEPARATOR,
    },
    store::{
        assembled, assembled_all, branch_entries, entries_of_branch, has_kind, index_all, index_of,
        indexed_before, law_index_is_ordered, law_revisions_are_ordered, link_of_name,
        revisions_of, Assembled, BranchRead, FileRead, IndexView, LinkRead, Presence, RecordRead,
        RevisionView,
    },
    text::{ends_cleanly, is_space, lemma_ends_cleanly, trimmed, trimmed_end},
};
#[allow(unused_imports)]
use vstd::multiset::Multiset;
use vstd::prelude::*;
#[allow(unused_imports)]
use vstd::utf8::{encode_utf8, encode_utf8_decode_utf8, encode_utf8_valid_utf8};

verus! {

/// What a repository holds: its records by directory and name, and its tags by name.
pub ghost struct Held {
    pub files: Files,
    pub tags: Map<Seq<char>, Seq<u8>>,
}

/// The content of a file.
pub open spec fn file_at(files: Files, place: Place, name: Seq<char>) -> Option<Seq<u8>> {
    if files.contains_key((place, name)) {
        match files[(place, name)] {
            ContentView::File(bytes) => Some(bytes),
            ContentView::Link(_) => None,
        }
    } else {
        None
    }
}

/// The content of a tag.
pub open spec fn tag_at(tags: Map<Seq<char>, Seq<u8>>, name: Seq<char>) -> Option<Seq<u8>> {
    if tags.contains_key(name) {
        Some(tags[name])
    } else {
        None
    }
}

/// Whether reading a file gave what it holds.
pub open spec fn reads_file(read: FileRead, content: Option<Seq<u8>>) -> bool {
    match (read, content) {
        (FileRead::Bytes(bytes), Some(c)) => bytes@ == c,
        (FileRead::Missing, None) => true,
        _ => false,
    }
}

/// Whether what was read for a name in the access directory is what the repository holds.
pub open spec fn shows(held: Held, read: RecordRead) -> bool {
    record_of_name(read.name@, 'a') matches Some((key, leaf, number)) ==> {
        &&& file_at(held.files, Place::Access, read.name@) matches Some(c) && (
        read.access matches Ok(bytes) && bytes@ == c)
        &&& read.has_backup == (file_at(
            held.files,
            Place::Backups,
            name_of_record(key, leaf, number, 'b'),
        ) is Some)
        &&& read.diff == if file_at(
            held.files,
            Place::Edits,
            name_of_record(key, leaf, number, 'd'),
        ) is Some {
            Presence::Present
        } else {
            Presence::Missing
        }
        &&& reads_file(
            read.actor,
            file_at(held.files, Place::Actors, name_of_record(key, leaf, number, 'u')),
        )
        &&& reads_file(read.tag, tag_at(held.tags, name_of_record(key, leaf, number, 't')))
    }
}

/// Whether a name is among what was read.
pub open spec fn is_read(reads: Seq<RecordRead>, name: Seq<char>) -> bool {
    exists|i: int| 0 <= i < reads.len() && (#[trigger] reads[i]).name@ == name
}

/// Whether no name was read twice.
pub open spec fn read_once(reads: Seq<RecordRead>) -> bool {
    forall|i: int, j: int|
        0 <= i < j < reads.len() ==> (#[trigger] reads[i]).name@ != (#[trigger] reads[j]).name@
}

/// Whether a repository has an access record of a name.
pub open spec fn has_record(held: Held, name: Seq<char>) -> bool {
    held.files.contains_key((Place::Access, name)) && record_of_name(name, 'a') is Some
}

/// Whether the access records were read as the repository holds them: every one once, in whatever
/// order.
pub open spec fn lists(held: Held, reads: Seq<RecordRead>) -> bool {
    &&& read_once(reads)
    &&& forall|i: int|
        0 <= i < reads.len() ==> shows(held, #[trigger] reads[i]) && has_record(
            held,
            reads[i].name@,
        )
    &&& forall|name: Seq<char>| #[trigger] has_record(held, name) ==> is_read(reads, name)
}

/// What a named part of a directory comes to.
type Part<T> = (Seq<char>, Multiset<T>);

/// All that parts come to.
spec fn total<T>(parts: Seq<Part<T>>) -> Multiset<T>
    decreases parts.len(),
{
    if parts.len() == 0 {
        Multiset::empty()
    } else {
        total(parts.drop_last()).add(parts.last().1)
    }
}

/// Whether no two parts have the same name.
spec fn named_once<T>(parts: Seq<Part<T>>) -> bool {
    forall|i: int, j: int|
        0 <= i < j < parts.len() ==> (#[trigger] parts[i]).0 != (#[trigger] parts[j]).0
}

/// Whether a part has a name.
spec fn is_named<T>(parts: Seq<Part<T>>, name: Seq<char>) -> bool {
    exists|i: int| 0 <= i < parts.len() && (#[trigger] parts[i]).0 == name
}

/// Whether parts of the same name come to the same.
spec fn agree<T>(a: Seq<Part<T>>, b: Seq<Part<T>>) -> bool {
    forall|i: int, j: int|
        0 <= i < a.len() && 0 <= j < b.len() && (#[trigger] a[i]).0 == (#[trigger] b[j]).0 ==> a[i].1
            == b[j].1
}

proof fn lemma_total_without<T>(parts: Seq<Part<T>>, i: int)
    requires
        0 <= i < parts.len(),
    ensures
        total(parts) == total(parts.remove(i)).add(parts[i].1),
    decreases parts.len(),
{
    if i == parts.len() - 1 {
        assert(parts.remove(i) =~= parts.drop_last());
    } else {
        lemma_total_without(parts.drop_last(), i);
        let fewer = parts.remove(i);
        assert(fewer.last() == parts.last());
        assert(fewer.drop_last() =~= parts.drop_last().remove(i));
        assert(total(parts) =~= total(fewer).add(parts[i].1));
    }
}

proof fn lemma_named_without<T>(parts: Seq<Part<T>>, i: int)
    requires
        named_once(parts),
        0 <= i < parts.len(),
    ensures
        named_once(parts.remove(i)),
        forall|name: Seq<char>| #[trigger]
            is_named(parts.remove(i), name) <==> is_named(parts, name) && name != parts[i].0,
{
    let fewer = parts.remove(i);
    assert forall|a: int, b: int| 0 <= a < b < fewer.len() implies (#[trigger] fewer[a]).0 != (
    #[trigger] fewer[b]).0 by {
        let x = if a < i { a } else { a + 1 };
        let y = if b < i { b } else { b + 1 };
        assert(fewer[a] == parts[x] && fewer[b] == parts[y]);
    }
    assert forall|name: Seq<char>| #[trigger] is_named(fewer, name) <==> is_named(parts, name)
        && name != parts[i].0 by {
        if is_named(fewer, name) {
            let a = choose|a: int| 0 <= a < fewer.len() && (#[trigger] fewer[a]).0 == name;
            let x = if a < i { a } else { a + 1 };
            assert(fewer[a] == parts[x]);
            if x < i {
                assert(parts[x].0 != parts[i].0);
            } else {
                assert(parts[i].0 != parts[x].0);
            }
        }
        if is_named(parts, name) && name != parts[i].0 {
            let x = choose|x: int| 0 <= x < parts.len() && (#[trigger] parts[x]).0 == name;
            let a = if x < i { x } else { x - 1 };
            assert(fewer[a] == parts[x]);
        }
    }
}

proof fn lemma_total_alike<T>(a: Seq<Part<T>>, b: Seq<Part<T>>)
    requires
        named_once(a),
        named_once(b),
        forall|name: Seq<char>| #[trigger] is_named(a, name) <==> is_named(b, name),
        agree(a, b),
    ensures
        total(a) == total(b),
    decreases b.len(),
{
    if b.len() == 0 {
        if a.len() > 0 {
            assert(is_named(a, a[0].0));
            assert(is_named(b, a[0].0));
        }
    } else {
        let last = b.len() - 1;
        let name = b[last].0;
        assert(is_named(b, name));
        assert(is_named(a, name));
        let i = choose|i: int| 0 <= i < a.len() && (#[trigger] a[i]).0 == name;
        lemma_total_without(a, i);
        lemma_total_without(b, last);
        lemma_named_without(a, i);
        lemma_named_without(b, last);
        let (x, y) = (a.remove(i), b.remove(last));
        assert forall|m: int, n: int|
            0 <= m < x.len() && 0 <= n < y.len() && (#[trigger] x[m]).0 == (
            #[trigger] y[n]).0 implies x[m].1 == y[n].1 by {
            let u = if m < i { m } else { m + 1 };
            assert(x[m] == a[u] && y[n] == b[n]);
        }
        assert forall|other: Seq<char>| #[trigger] is_named(x, other) <==> is_named(y, other) by {
            assert(is_named(a, other) <==> is_named(b, other));
        }
        lemma_total_alike(x, y);
    }
}

proof fn lemma_total_joined<T>(a: Seq<Part<T>>, b: Seq<Part<T>>)
    ensures
        total(a + b) == total(a).add(total(b)),
    decreases b.len(),
{
    if b.len() == 0 {
        assert(a + b =~= a);
        assert(total(a).add(total(b)) =~= total(a));
    } else {
        lemma_total_joined(a, b.drop_last());
        assert((a + b).drop_last() =~= a + b.drop_last());
        assert(total(a + b) =~= total(a).add(total(b)));
    }
}

/// What is there comes to what was there and what was added, where nothing else has changed.
proof fn lemma_total_added<T>(before: Seq<Part<T>>, added: Seq<Part<T>>, after: Seq<Part<T>>)
    requires
        named_once(before),
        named_once(added),
        named_once(after),
        forall|name: Seq<char>| #[trigger] is_named(before, name) ==> !is_named(added, name),
        forall|name: Seq<char>| #[trigger]
            is_named(after, name) <==> is_named(before, name) || is_named(added, name),
        agree(before, after),
        agree(added, after),
    ensures
        total(after) == total(before).add(total(added)),
{
    let all = before + added;
    let n = before.len() as int;
    assert forall|i: int, j: int| 0 <= i < j < all.len() implies (#[trigger] all[i]).0 != (
    #[trigger] all[j]).0 by {
        if i < n && j >= n {
            assert(all[i] == before[i] && all[j] == added[j - n]);
            assert(is_named(before, before[i].0));
            assert(is_named(added, added[j - n].0));
        }
    }
    assert forall|name: Seq<char>| #[trigger] is_named(all, name) <==> is_named(after, name) by {
        if is_named(all, name) {
            let i = choose|i: int| 0 <= i < all.len() && (#[trigger] all[i]).0 == name;
            if i < n {
                assert(before[i].0 == name);
                assert(is_named(before, name));
            } else {
                assert(added[i - n].0 == name);
                assert(is_named(added, name));
            }
            assert(is_named(after, name));
        }
        if is_named(after, name) {
            if is_named(before, name) {
                let i = choose|i: int| 0 <= i < before.len() && (#[trigger] before[i]).0 == name;
                assert(all[i].0 == name);
            } else {
                let i = choose|i: int| 0 <= i < added.len() && (#[trigger] added[i]).0 == name;
                assert(all[n + i].0 == name);
            }
        }
    }
    assert(agree(all, after)) by {
        assert forall|i: int, j: int|
            0 <= i < all.len() && 0 <= j < after.len() && (#[trigger] all[i]).0 == (
            #[trigger] after[j]).0 implies all[i].1 == after[j].1 by {
            if i < n {
                assert(all[i] == before[i]);
            } else {
                assert(all[i] == added[i - n]);
            }
        }
    }
    lemma_total_alike(all, after);
    lemma_total_joined(before, added);
}

/// What is there comes to what was there with one part replaced, where nothing else has changed.
proof fn lemma_total_replaced<T>(before: Seq<Part<T>>, i: int, after: Seq<Part<T>>, new: Multiset<T>)
    requires
        named_once(before),
        named_once(after),
        0 <= i < before.len(),
        forall|name: Seq<char>| #[trigger] is_named(before, name) <==> is_named(after, name),
        forall|j: int, k: int|
            0 <= j < before.len() && 0 <= k < after.len() && (#[trigger] before[j]).0 == (
            #[trigger] after[k]).0 ==> after[k].1 == if j == i {
                new
            } else {
                before[j].1
            },
    ensures
        total(before) == total(before.remove(i)).add(before[i].1),
        total(after) == total(before.remove(i)).add(new),
{
    let own = before[i].0;
    lemma_total_without(before, i);
    lemma_named_without(before, i);
    let rest = before.remove(i);
    assert(is_named(before, own));
    assert(is_named(after, own));
    let at = choose|at: int| 0 <= at < after.len() && (#[trigger] after[at]).0 == own;
    lemma_total_without(after, at);
    lemma_named_without(after, at);
    let others = after.remove(at);
    assert forall|name: Seq<char>| #[trigger] is_named(rest, name) <==> is_named(others, name) by {
        assert(is_named(before, name) <==> is_named(after, name));
    }
    assert forall|j: int, k: int|
        0 <= j < rest.len() && 0 <= k < others.len() && (#[trigger] rest[j]).0 == (
        #[trigger] others[k]).0 implies rest[j].1 == others[k].1 by {
        let x = if j < i { j } else { j + 1 };
        let y = if k < at { k } else { k + 1 };
        assert(rest[j] == before[x] && others[k] == after[y]);
    }
    lemma_total_alike(rest, others);
    assert(before[i].0 == after[at].0);
}

/// The revision that one name comes to, if any.
spec fn found(config: ConfigView, read: RecordRead) -> Multiset<RevisionView> {
    match assembled(config, read) {
        Assembled::Found(r) => Multiset::singleton(r),
        _ => Multiset::empty(),
    }
}

/// What each name comes to.
spec fn founds(config: ConfigView, reads: Seq<RecordRead>) -> Seq<Part<RevisionView>> {
    Seq::new(reads.len(), |i: int| (reads[i].name@, found(config, reads[i])))
}

proof fn lemma_assembled(config: ConfigView, reads: Seq<RecordRead>, n: int)
    requires
        0 <= n <= reads.len(),
    ensures
        match assembled_all(config, reads, n) {
            Ok(rs) => rs.to_multiset() == total(founds(config, reads.take(n))) && forall|i: int|
                0 <= i < n ==> !(assembled(config, #[trigger] reads[i]) is Refused),
            Err(_) => exists|i: int|
                0 <= i < n && assembled(config, #[trigger] reads[i]) is Refused,
        },
    decreases n,
{
    if n > 0 {
        lemma_assembled(config, reads, n - 1);
        let parts = founds(config, reads.take(n));
        assert(parts.drop_last() =~= founds(config, reads.take(n - 1)));
        assert(parts.last().1 == found(config, reads[n - 1]));
        match assembled_all(config, reads, n - 1) {
            Ok(before) => {
                match assembled(config, reads[n - 1]) {
                    Assembled::Found(r) => {
                        vstd::seq_lib::to_multiset_build(before, r);
                        assert(before.push(r).to_multiset() =~= before.to_multiset().add(
                            Multiset::singleton(r),
                        ));
                    },
                    _ => {
                        assert(before.to_multiset() =~= before.to_multiset().add(
                            Multiset::empty(),
                        ));
                    },
                }
            },
            Err(_) => {},
        }
    } else {
        Seq::<RevisionView>::empty().to_multiset_ensures();
        assert(Seq::<RevisionView>::empty().to_multiset() =~= Multiset::empty());
    }
}

proof fn lemma_revisions(config: ConfigView, reads: Seq<RecordRead>)
    ensures
        match revisions_of(config, reads) {
            Ok(rs) => rs.to_multiset() == total(founds(config, reads)) && forall|i: int|
                0 <= i < reads.len() ==> !(assembled(config, #[trigger] reads[i]) is Refused),
            Err(_) => exists|i: int|
                0 <= i < reads.len() && assembled(config, #[trigger] reads[i]) is Refused,
        },
{
    let n = reads.len() as int;
    lemma_assembled(config, reads, n);
    assert(reads.take(n) =~= reads);
    match assembled_all(config, reads, n) {
        Ok(rs) => {
            law_revisions_are_ordered(rs);
        },
        Err(_) => {},
    }
}

/// The names that were read are those of the access records.
proof fn lemma_names(config: ConfigView, held: Held, reads: Seq<RecordRead>)
    requires
        lists(held, reads),
    ensures
        named_once(founds(config, reads)),
        forall|name: Seq<char>| #[trigger]
            is_named(founds(config, reads), name) <==> has_record(held, name),
{
    let parts = founds(config, reads);
    assert forall|i: int, j: int| 0 <= i < j < parts.len() implies (#[trigger] parts[i]).0 != (
    #[trigger] parts[j]).0 by {
        assert(reads[i].name@ != reads[j].name@);
    }
    assert forall|name: Seq<char>| #[trigger] is_named(parts, name) <==> has_record(held, name) by {
        if is_named(parts, name) {
            let i = choose|i: int| 0 <= i < parts.len() && (#[trigger] parts[i]).0 == name;
            assert(has_record(held, reads[i].name@));
        }
        if has_record(held, name) {
            assert(is_read(reads, name));
            let i = choose|i: int| 0 <= i < reads.len() && (#[trigger] reads[i]).name@ == name;
            assert(parts[i].0 == name);
        }
    }
}

/// Whether two repositories hold the same for what one name of an access record stands for.
spec fn agree_on(a: Held, b: Held, name: Seq<char>) -> bool {
    record_of_name(name, 'a') matches Some((key, leaf, number)) ==> {
        &&& file_at(a.files, Place::Access, name) == file_at(b.files, Place::Access, name)
        &&& file_at(a.files, Place::Backups, name_of_record(key, leaf, number, 'b')) == file_at(
            b.files,
            Place::Backups,
            name_of_record(key, leaf, number, 'b'),
        )
        &&& file_at(a.files, Place::Edits, name_of_record(key, leaf, number, 'd')) == file_at(
            b.files,
            Place::Edits,
            name_of_record(key, leaf, number, 'd'),
        )
        &&& file_at(a.files, Place::Actors, name_of_record(key, leaf, number, 'u')) == file_at(
            b.files,
            Place::Actors,
            name_of_record(key, leaf, number, 'u'),
        )
        &&& tag_at(a.tags, name_of_record(key, leaf, number, 't')) == tag_at(
            b.tags,
            name_of_record(key, leaf, number, 't'),
        )
    }
}

proof fn lemma_assembled_alike(config: ConfigView, a: Held, b: Held, x: RecordRead, y: RecordRead)
    requires
        x.name@ == y.name@,
        shows(a, x),
        shows(b, y),
        agree_on(a, b, x.name@),
    ensures
        assembled(config, x) == assembled(config, y),
{
}

/// The order in which a directory is read makes no difference to the revisions.
pub proof fn law_reading_order_does_not_matter(
    config: ConfigView,
    held: Held,
    a: Seq<RecordRead>,
    b: Seq<RecordRead>,
)
    requires
        lists(held, a),
        lists(held, b),
    ensures
        revisions_of(config, a) is Ok <==> revisions_of(config, b) is Ok,
        revisions_of(config, a) matches Ok(x) ==> (revisions_of(config, b) matches Ok(y)
            && x.to_multiset() == y.to_multiset()),
{
    lemma_listed_alike(config, held, held, a, b);
}

proof fn lemma_listed_alike(
    config: ConfigView,
    held: Held,
    other: Held,
    a: Seq<RecordRead>,
    b: Seq<RecordRead>,
)
    requires
        lists(held, a),
        lists(other, b),
        forall|name: Seq<char>| #[trigger]
            has_record(held, name) <==> has_record(other, name),
        forall|i: int| 0 <= i < a.len() ==> agree_on(held, other, (#[trigger] a[i]).name@),
    ensures
        revisions_of(config, a) is Ok <==> revisions_of(config, b) is Ok,
        revisions_of(config, a) matches Ok(x) ==> (revisions_of(config, b) matches Ok(y)
            && x.to_multiset() == y.to_multiset()),
{
    let (x, y) = (founds(config, a), founds(config, b));
    lemma_names(config, held, a);
    lemma_names(config, other, b);
    assert forall|name: Seq<char>| #[trigger] is_named(x, name) <==> is_named(y, name) by {
        assert(has_record(held, name) <==> has_record(other, name));
    }
    assert forall|i: int, j: int|
        0 <= i < a.len() && 0 <= j < b.len() && (#[trigger] a[i]).name@ == (
        #[trigger] b[j]).name@ implies assembled(config, a[i]) == assembled(config, b[j]) by {
        lemma_assembled_alike(config, held, other, a[i], b[j]);
    }
    assert(agree(x, y)) by {
        assert forall|i: int, j: int|
            0 <= i < x.len() && 0 <= j < y.len() && (#[trigger] x[i]).0 == (#[trigger] y[j]).0 implies x[i].1
            == y[j].1 by {
            assert(a[i].name@ == b[j].name@);
        }
    }
    lemma_total_alike(x, y);
    lemma_revisions(config, a);
    lemma_revisions(config, b);
    if revisions_of(config, a) is Ok && revisions_of(config, b) is Err {
        let j = choose|j: int| 0 <= j < b.len() && assembled(config, #[trigger] b[j]) is Refused;
        assert(has_record(other, b[j].name@));
        assert(has_record(held, b[j].name@));
        assert(is_read(a, b[j].name@));
        let i = choose|i: int| 0 <= i < a.len() && (#[trigger] a[i]).name@ == b[j].name@;
        assert(!(assembled(config, a[i]) is Refused));
    }
    if revisions_of(config, b) is Ok && revisions_of(config, a) is Err {
        let j = choose|j: int| 0 <= j < a.len() && assembled(config, #[trigger] a[j]) is Refused;
        assert(has_record(held, a[j].name@));
        assert(has_record(other, a[j].name@));
        assert(is_read(b, a[j].name@));
        let i = choose|i: int| 0 <= i < b.len() && (#[trigger] b[i]).name@ == a[j].name@;
        assert(!(assembled(config, b[i]) is Refused));
    }
}

/// A repository after a revision was published.
pub open spec fn published(held: Held, p: PreparedView, config: ConfigView, number: nat) -> Held {
    let steps = publication_steps(p, config, number);
    Held { files: after_steps(held.files, steps, steps.len() as int), ..held }
}

/// Whether nothing is there that would be taken for a part of a new revision.
pub open spec fn has_room(held: Held, p: PreparedView, config: ConfigView, number: nat) -> bool {
    &&& nothing_stale(held.files, p, config, number)
    &&& !held.tags.contains_key(name_of_record(p.key, p.leaf, number, 't'))
}

/// Whether what a revision records can be told apart again where it is read.
pub open spec fn is_recordable(p: PreparedView, config: ConfigView) -> bool {
    &&& ends_cleanly(p.key, SEPARATOR@)
    &&& ends_cleanly(p.leaf, SEPARATOR@)
    &&& is_field(p.stamp)
    &&& is_field(p.full)
    &&& is_line(p.editor)
    &&& config.actor != config.history_owner ==> ends_plainly(config.actor)
}

/// The letter of the records that a directory holds; links have names of another form.
pub open spec fn kind_of(place: Place) -> char {
    match place {
        Place::Access => 'a',
        Place::Backups => 'b',
        Place::Edits => 'd',
        Place::Actors => 'u',
        Place::Branch => ' ',
    }
}

/// Whether a repository has an access record that gives a file a number.
pub open spec fn has_number(held: Held, key: Seq<char>, leaf: Seq<char>, number: nat) -> bool {
    exists|name: Seq<char>| #[trigger]
        has_record(held, name) && number_for(name, key, leaf) == Some(number)
}

/// Whether a number is the greatest that a repository gives a file, or zero where it gives none.
pub open spec fn is_greatest(held: Held, key: Seq<char>, leaf: Seq<char>, number: nat) -> bool {
    &&& forall|other: nat| #[trigger] has_number(held, key, leaf, other) ==> other <= number
    &&& number == 0 || has_number(held, key, leaf, number)
}

/// Whether the access records were read as the repository holds them to find the next number.
pub open spec fn allocates(held: Held, reads: Seq<AllocationRead>) -> bool {
    &&& forall|i: int|
        0 <= i < reads.len() ==> has_record(held, (#[trigger] reads[i]).name@) && (
        reads[i].access matches Ok(bytes) && file_at(held.files, Place::Access, reads[i].name@)
            == Some(bytes@))
    &&& forall|name: Seq<char>| #[trigger]
        has_record(held, name) ==> exists|i: int|
            0 <= i < reads.len() && (#[trigger] reads[i]).name@ == name
}

/// The next number of a file is one more than the greatest that the repository gives it.
pub proof fn law_numbers_count_on(
    held: Held,
    reads: Seq<AllocationRead>,
    key: Seq<char>,
    leaf: Seq<char>,
)
    requires
        allocates(held, reads),
        next_number(reads, key, leaf) is Ok,
    ensures
        next_number(reads, key, leaf)->Ok_0 >= 1,
        is_greatest(held, key, leaf, (next_number(reads, key, leaf)->Ok_0 - 1) as nat),
{
    let next = next_number(reads, key, leaf)->Ok_0;
    assert(next >= 1);
    assert forall|other: nat| #[trigger] has_number(held, key, leaf, other) implies other <= next
        - 1 by {
        let name = choose|name: Seq<char>| #[trigger]
            has_record(held, name) && number_for(name, key, leaf) == Some(
                other,
            );
        let i = choose|i: int| 0 <= i < reads.len() && (#[trigger] reads[i]).name@ == name;
        law_next_number_is_fresh(reads, key, leaf, i);
    }
    law_next_number_is_one_more(reads, key, leaf);
    if next > 1 {
        let m = (next - 1) as nat;
        let i = choose|i: int|
            0 <= i < reads.len() && number_for((#[trigger] reads[i]).name@, key, leaf) == Some(m);
        assert(has_record(held, reads[i].name@));
    }
}

proof fn lemma_published(files: Files, p: PreparedView, config: ConfigView, number: nat)
    ensures
        ({
            let steps = publication_steps(p, config, number);
            let end = after_steps(files, steps, steps.len() as int);
            let diff = name_of_record(p.key, p.leaf, number, 'd');
            let actor = name_of_record(p.key, p.leaf, number, 'u');
            &&& file_at(end, Place::Access, name_of_record(p.key, p.leaf, number, 'a')) == Some(
                encode_utf8(access_text(p)),
            )
            &&& file_at(end, Place::Backups, name_of_record(p.key, p.leaf, number, 'b')) == Some(
                p.payload.backup,
            )
            &&& file_at(end, Place::Edits, diff) == match p.payload.diff {
                Some(d) => Some(d),
                None => file_at(files, Place::Edits, diff),
            }
            &&& file_at(end, Place::Actors, actor) == if config.actor != config.history_owner {
                Some(encode_utf8(config.actor + "\n"@))
            } else {
                file_at(files, Place::Actors, actor)
            }
            &&& forall|place: Place, name: Seq<char>|
                place != Place::Branch && name != name_of_record(
                    p.key,
                    p.leaf,
                    number,
                    kind_of(place),
                ) ==> {
                    &&& #[trigger] end.contains_key((place, name)) == files.contains_key((place, name))
                    &&& file_at(end, place, name) == file_at(files, place, name)
                }
        }),
{
    let steps = publication_steps(p, config, number);
    let n = steps.len() as int;
    let end = after_steps(files, steps, n);
    let d: int = if p.payload.diff is Some { 1 } else { 0 };
    let a: int = if config.actor != config.history_owner { 1 } else { 0 };
    assert(n == 4 + 2 * d + a);
    assert(steps[0] == file_step(Place::Backups, p, number, 'b', p.payload.backup));
    assert(steps[1 + d] == file_step(Place::Access, p, number, 'a', encode_utf8(access_text(p))));
    assert(steps[2 + d + a] == link_step(p, number, 'b', config.backups));
    assert(steps[3 + 2 * d + a] == link_step(p, number, 'a', config.access));
    assert(d == 1 ==> steps[3 + d + a] == link_step(p, number, 'd', config.edits));
    lemma_written(files, steps, 0, n);
    lemma_written(files, steps, 1 + d, n);
    if d == 1 {
        assert(steps[1] == file_step(Place::Edits, p, number, 'd', p.payload.diff->0));
        lemma_written(files, steps, 1, n);
    } else {
        lemma_after_steps(
            files,
            steps,
            n,
            (Place::Edits, name_of_record(p.key, p.leaf, number, 'd')),
        );
    }
    if a == 1 {
        assert(steps[2 + d] == file_step(
            Place::Actors,
            p,
            number,
            'u',
            encode_utf8(config.actor + "\n"@),
        ));
        lemma_written(files, steps, 2 + d, n);
    } else {
        lemma_after_steps(
            files,
            steps,
            n,
            (Place::Actors, name_of_record(p.key, p.leaf, number, 'u')),
        );
    }
    assert forall|place: Place, name: Seq<char>|
        place != Place::Branch && name != name_of_record(
            p.key,
            p.leaf,
            number,
            kind_of(place),
        ) implies #[trigger] end.contains_key((place, name)) == files.contains_key((place, name))
        && file_at(end, place, name) == file_at(files, place, name) by {
        lemma_after_steps(files, steps, n, (place, name));
    }
}

proof fn lemma_others_stay(
    held: Held,
    p: PreparedView,
    config: ConfigView,
    number: nat,
    name: Seq<char>,
)
    requires
        is_recordable(p, config),
        number <= u64::MAX,
        number_for(name, p.key, p.leaf) != Some(number),
    ensures
        agree_on(held, published(held, p, config, number), name),
{
    lemma_published(held.files, p, config, number);
    match record_of_name(name, 'a') {
        Some((key, leaf, m)) => {
            lemma_record_parts(name, 'a');
            law_record_name_round_trip(p.key, p.leaf, number, 'a');
            law_record_names_differ(key, leaf, m, p.key, p.leaf, number, 'b');
            law_record_names_differ(key, leaf, m, p.key, p.leaf, number, 'd');
            law_record_names_differ(key, leaf, m, p.key, p.leaf, number, 'u');
            let end = published(held, p, config, number).files;
            assert(end.contains_key((Place::Access, name)) == has_record(held, name));
            let backup = name_of_record(key, leaf, m, 'b');
            assert(end.contains_key((Place::Backups, backup)) == held.files.contains_key(
                (Place::Backups, backup),
            ));
            let diff = name_of_record(key, leaf, m, 'd');
            assert(end.contains_key((Place::Edits, diff)) == held.files.contains_key(
                (Place::Edits, diff),
            ));
            let actor = name_of_record(key, leaf, m, 'u');
            assert(end.contains_key((Place::Actors, actor)) == held.files.contains_key(
                (Place::Actors, actor),
            ));
        },
        None => {},
    }
}

proof fn lemma_new_is_found(
    config: ConfigView,
    held: Held,
    p: PreparedView,
    number: nat,
    read: RecordRead,
)
    requires
        is_recordable(p, config),
        number <= u64::MAX,
        has_room(held, p, config, number),
        read.name@ == name_of_record(p.key, p.leaf, number, 'a'),
        shows(published(held, p, config, number), read),
    ensures
        assembled(config, read) == Assembled::Found(published_revision(p, config, number)),
{
    lemma_published(held.files, p, config, number);
    law_record_name_round_trip(p.key, p.leaf, number, 'a');
    let end = published(held, p, config, number).files;
    let steps = publication_steps(p, config, number);
    if p.payload.diff is None {
        lemma_after_steps(
            held.files,
            steps,
            steps.len() as int,
            (Place::Edits, name_of_record(p.key, p.leaf, number, 'd')),
        );
    }
    if config.actor == config.history_owner {
        lemma_after_steps(
            held.files,
            steps,
            steps.len() as int,
            (Place::Actors, name_of_record(p.key, p.leaf, number, 'u')),
        );
    }
    assert(read_from_files(end, p.key, p.leaf, number, read));
    law_published_revision_reads_back(held.files, p, config, number, read);
}

/// A revision that is published is listed from then on, under the number after the greatest that
/// its file had, and nothing else of the list changes.
pub proof fn law_publishing_adds_one_revision(
    config: ConfigView,
    held: Held,
    p: PreparedView,
    number: nat,
    numbers: Seq<AllocationRead>,
    before: Seq<RecordRead>,
    after: Seq<RecordRead>,
)
    requires
        allocates(held, numbers),
        next_number(numbers, p.key, p.leaf) == Ok::<nat, FailureView>(number),
        is_recordable(p, config),
        has_room(held, p, config, number),
        lists(held, before),
        lists(published(held, p, config, number), after),
        revisions_of(config, before) is Ok,
    ensures
        is_greatest(held, p.key, p.leaf, (number - 1) as nat),
        is_greatest(published(held, p, config, number), p.key, p.leaf, number),
        revisions_of(config, after) matches Ok(rs) && rs.to_multiset() == revisions_of(
            config,
            before,
        )->Ok_0.to_multiset().insert(published_revision(p, config, number)),
{
    law_numbers_count_on(held, numbers, p.key, p.leaf);
    lemma_adds_one(config, held, p, number, before, after);
    lemma_greatest_now(held, p, config, number);
}

proof fn lemma_greatest_now(held: Held, p: PreparedView, config: ConfigView, number: nat)
    requires
        is_recordable(p, config),
        1 <= number <= u64::MAX,
        is_greatest(held, p.key, p.leaf, (number - 1) as nat),
    ensures
        is_greatest(published(held, p, config, number), p.key, p.leaf, number),
{
    let now = published(held, p, config, number);
    let own = name_of_record(p.key, p.leaf, number, 'a');
    lemma_published(held.files, p, config, number);
    law_record_name_round_trip(p.key, p.leaf, number, 'a');
    assert(has_record(now, own));
    assert(has_number(now, p.key, p.leaf, number));
    assert forall|other: nat| #[trigger] has_number(now, p.key, p.leaf, other) implies other
        <= number by {
        let name = choose|name: Seq<char>| #[trigger]
            has_record(now, name) && number_for(name, p.key, p.leaf)
                == Some(other);
        if name != own {
            assert(has_record(held, name));
            assert(has_number(held, p.key, p.leaf, other));
        }
    }
}

proof fn lemma_adds_one(
    config: ConfigView,
    held: Held,
    p: PreparedView,
    number: nat,
    before: Seq<RecordRead>,
    after: Seq<RecordRead>,
)
    requires
        1 <= number <= u64::MAX,
        is_greatest(held, p.key, p.leaf, (number - 1) as nat),
        is_recordable(p, config),
        has_room(held, p, config, number),
        lists(held, before),
        lists(published(held, p, config, number), after),
        revisions_of(config, before) is Ok,
    ensures
        revisions_of(config, after) matches Ok(rs) && rs.to_multiset() == revisions_of(
            config,
            before,
        )->Ok_0.to_multiset().insert(published_revision(p, config, number)),
{
    let now = published(held, p, config, number);
    let own = name_of_record(p.key, p.leaf, number, 'a');
    lemma_published(held.files, p, config, number);
    law_record_name_round_trip(p.key, p.leaf, number, 'a');
    assert(has_record(now, own));
    if has_record(held, own) {
        assert(has_number(held, p.key, p.leaf, number));
    }
    let new = published_revision(p, config, number);
    let (x, y) = (founds(config, before), founds(config, after));
    let added = seq![(own, Multiset::singleton(new))];
    lemma_names(config, held, before);
    lemma_names(config, now, after);
    assert forall|name: Seq<char>| #[trigger] is_named(added, name) <==> name == own by {
        if name == own {
            assert(added[0].0 == name);
        }
    }
    assert forall|name: Seq<char>| #[trigger] is_named(y, name) <==> is_named(x, name) || is_named(
        added,
        name,
    ) by {
        if name != own {
            assert(has_record(now, name) == has_record(held, name));
        }
    }
    assert forall|j: int, k: int|
        0 <= j < before.len() && 0 <= k < after.len() && (#[trigger] before[j]).name@ == (
        #[trigger] after[k]).name@ implies assembled(config, before[j]) == assembled(
        config,
        after[k],
    ) by {
        let name = before[j].name@;
        assert(has_record(held, name));
        if number_for(name, p.key, p.leaf) == Some(number) {
            assert(has_number(held, p.key, p.leaf, number));
        }
        lemma_others_stay(held, p, config, number, name);
        lemma_assembled_alike(config, held, now, before[j], after[k]);
    }
    assert(agree(x, y)) by {
        assert forall|j: int, k: int|
            0 <= j < x.len() && 0 <= k < y.len() && (#[trigger] x[j]).0 == (#[trigger] y[k]).0 implies x[j].1
            == y[k].1 by {
            assert(before[j].name@ == after[k].name@);
        }
    }
    assert(agree(added, y)) by {
        assert forall|j: int, k: int|
            0 <= j < added.len() && 0 <= k < y.len() && (#[trigger] added[j]).0 == (
            #[trigger] y[k]).0 implies added[j].1 == y[k].1 by {
            lemma_new_is_found(config, held, p, number, after[k]);
        }
    }
    lemma_total_added(x, added, y);
    assert(total(added) =~= Multiset::singleton(new)) by {
        reveal_with_fuel(total, 2);
        assert(added.drop_last() =~= Seq::empty());
    }
    lemma_revisions(config, before);
    lemma_revisions(config, after);
    if revisions_of(config, after) is Err {
        let k = choose|k: int| 0 <= k < after.len() && assembled(config, #[trigger] after[k]) is Refused;
        let name = after[k].name@;
        if name == own {
            lemma_new_is_found(config, held, p, number, after[k]);
        } else {
            assert(has_record(now, name));
            assert(has_record(held, name));
            assert(is_read(before, name));
            let j = choose|j: int| 0 <= j < before.len() && (#[trigger] before[j]).name@ == name;
            assert(assembled(config, before[j]) == assembled(config, after[k]));
        }
    } else {
        assert(total(x).add(Multiset::singleton(new)) =~= total(x).insert(new));
    }
}

/// Numbers follow each other: the revision after a published one gets the next number.
pub proof fn law_next_number_follows(
    config: ConfigView,
    held: Held,
    p: PreparedView,
    number: nat,
    before: Seq<AllocationRead>,
    after: Seq<AllocationRead>,
)
    requires
        is_recordable(p, config),
        allocates(held, before),
        next_number(before, p.key, p.leaf) == Ok::<nat, FailureView>(number),
        allocates(published(held, p, config, number), after),
        number < u64::MAX,
    ensures
        next_number(after, p.key, p.leaf) == Ok::<nat, FailureView>(number + 1),
{
    let now = published(held, p, config, number);
    let own = name_of_record(p.key, p.leaf, number, 'a');
    let (n, m) = (before.len() as int, after.len() as int);
    lemma_published(held.files, p, config, number);
    law_numbers_count_on(held, before, p.key, p.leaf);
    lemma_greatest_now(held, p, config, number);
    lemma_greatest_usable(before, n, p.key, p.leaf);
    lemma_greatest_usable(after, m, p.key, p.leaf);
    assert forall|i: int| 0 <= i < m implies is_usable(#[trigger] after[i]) by {
        let name = after[i].name@;
        if name == own {
            law_access_record_round_trip(p);
        } else {
            assert(has_record(now, name));
            assert(has_record(held, name));
            let j = choose|j: int| 0 <= j < n && (#[trigger] before[j]).name@ == name;
            assert(is_usable(before[j]));
        }
    }
    let found = greatest_number(after, m, p.key, p.leaf)->Ok_0;
    assert(has_number(now, p.key, p.leaf, number));
    let name = choose|name: Seq<char>| #[trigger]
        has_record(now, name) && number_for(name, p.key, p.leaf) == Some(
            number,
        );
    let i = choose|i: int| 0 <= i < m && (#[trigger] after[i]).name@ == name;
    lemma_greatest_bound(after, m, p.key, p.leaf, i);
    assert(found >= number);
    lemma_greatest_given(after, m, p.key, p.leaf);
    let j = choose|j: int|
        0 <= j < m && number_for((#[trigger] after[j]).name@, p.key, p.leaf) == Some(found);
    assert(has_record(now, after[j].name@));
    assert(has_number(now, p.key, p.leaf, found));
}

/// Revisions of one file that are published one after the other: what was prepared for each, the
/// number that it gets, and the repository before each and at the end, with what was read of it.
pub ghost struct Run {
    pub helds: Seq<Held>,
    pub prepared: Seq<PreparedView>,
    pub numbers: Seq<nat>,
    pub allocations: Seq<Seq<AllocationRead>>,
    pub reads: Seq<Seq<RecordRead>>,
}

impl Run {
    /// Whether each revision is published where the one before left off.
    pub open spec fn is_run(self, config: ConfigView, key: Seq<char>, leaf: Seq<char>) -> bool {
        let n = self.prepared.len();
        &&& self.helds.len() == n + 1 && self.reads.len() == n + 1
        &&& self.numbers.len() == n && self.allocations.len() == n
        &&& forall|i: int| 0 <= i <= n ==> lists(#[trigger] self.helds[i], self.reads[i])
        &&& forall|i: int| 0 <= i < n ==> self.is_step(config, key, leaf, i)
    }

    /// Whether a revision is published where the one before left off.
    pub open spec fn is_step(
        self,
        config: ConfigView,
        key: Seq<char>,
        leaf: Seq<char>,
        i: int,
    ) -> bool {
        let (p, held, number) = (self.prepared[i], self.helds[i], self.numbers[i]);
        &&& p.key == key && p.leaf == leaf
        &&& is_recordable(p, config) && has_room(held, p, config, number)
        &&& allocates(held, self.allocations[i])
        &&& next_number(self.allocations[i], key, leaf) == Ok::<nat, FailureView>(number)
        &&& self.helds[i + 1] == published(held, p, config, number)
    }

    /// The revisions that the first `n` publications make.
    pub open spec fn made(self, config: ConfigView, n: int) -> Multiset<RevisionView>
        decreases n,
    {
        if n <= 0 {
            Multiset::empty()
        } else {
            self.made(config, n - 1).insert(
                published_revision(self.prepared[n - 1], config, self.numbers[n - 1]),
            )
        }
    }
}

/// Revisions of one file that are published one after the other get numbers that count up from the
/// greatest that the file had, from one where it had none. Each is listed at the end, and nothing
/// else of the list changes.
pub proof fn law_run_counts_up(
    config: ConfigView,
    run: Run,
    key: Seq<char>,
    leaf: Seq<char>,
    latest: nat,
    n: int,
)
    requires
        run.is_run(config, key, leaf),
        is_greatest(run.helds[0], key, leaf, latest),
        revisions_of(config, run.reads[0]) is Ok,
        0 <= n <= run.prepared.len(),
    ensures
        forall|i: int| 0 <= i < n ==> #[trigger] run.numbers[i] == latest + 1 + i,
        is_greatest(run.helds[n], key, leaf, (latest + n) as nat),
        revisions_of(config, run.reads[n]) matches Ok(rs) && rs.to_multiset() == revisions_of(
            config,
            run.reads[0],
        )->Ok_0.to_multiset().add(run.made(config, n)),
    decreases n,
{
    let old_revisions = revisions_of(config, run.reads[0])->Ok_0.to_multiset();
    if n == 0 {
        assert(old_revisions.add(run.made(config, 0)) =~= old_revisions);
    } else {
        law_run_counts_up(config, run, key, leaf, latest, n - 1);
        assert(run.is_step(config, key, leaf, n - 1));
        let (p, held, number) = (run.prepared[n - 1], run.helds[n - 1], run.numbers[n - 1]);
        assert(lists(run.helds[n - 1], run.reads[n - 1]));
        assert(lists(run.helds[n], run.reads[n]));
        law_publishing_adds_one_revision(
            config,
            held,
            p,
            number,
            run.allocations[n - 1],
            run.reads[n - 1],
            run.reads[n],
        );
        lemma_one_greatest(held, key, leaf, (latest + n - 1) as nat, (number - 1) as nat);
        assert(old_revisions.add(run.made(config, n - 1)).insert(
            published_revision(p, config, number),
        ) =~= old_revisions.add(run.made(config, n)));
    }
}

/// A repository after a revision was tagged.
pub open spec fn tagged(held: Held, r: RevisionView, text: Seq<char>) -> Held {
    Held {
        tags: held.tags.insert(
            name_of_record(r.key, r.leaf, r.number as nat, 't'),
            encode_utf8(text + "\n"@),
        ),
        ..held
    }
}

/// Whether no two names of access records say the same.
pub open spec fn told_apart(reads: Seq<RecordRead>) -> bool {
    forall|i: int, j: int|
        0 <= i < j < reads.len() && record_of_name((#[trigger] reads[i]).name@, 'a') is Some
            ==> record_of_name(reads[i].name@, 'a') != record_of_name(
            (#[trigger] reads[j]).name@,
            'a',
        )
}

/// A tag takes the place of an earlier one, and to write it again changes nothing.
pub proof fn law_tag_takes_the_place_of_another(
    held: Held,
    r: RevisionView,
    first: Seq<char>,
    second: Seq<char>,
)
    ensures
        tagged(tagged(held, r, first), r, second) == tagged(held, r, second),
{
    assert(tagged(tagged(held, r, first), r, second).tags =~= tagged(held, r, second).tags);
}

proof fn lemma_found_somewhere(config: ConfigView, reads: Seq<RecordRead>, r: RevisionView) -> (i:
    int)
    requires
        total(founds(config, reads)).contains(r),
    ensures
        0 <= i < reads.len(),
        assembled(config, reads[i]) == Assembled::Found(r),
    decreases reads.len(),
{
    let parts = founds(config, reads);
    let last = reads.len() - 1;
    assert(reads.len() > 0);
    assert(parts.drop_last() =~= founds(config, reads.drop_last()));
    if total(founds(config, reads.drop_last())).contains(r) {
        lemma_found_somewhere(config, reads.drop_last(), r)
    } else {
        assert(parts.last().1.contains(r));
        last
    }
}

/// A tag that is written is read back as the tag of its revision, and nothing else changes.
pub proof fn law_tag_is_read_back(
    config: ConfigView,
    held: Held,
    r: RevisionView,
    text: Seq<char>,
    before: Seq<RecordRead>,
    after: Seq<RecordRead>,
)
    requires
        ends_plainly(text),
        lists(held, before),
        told_apart(before),
        lists(tagged(held, r, text), after),
        revisions_of(config, before) matches Ok(rs) && rs.contains(r),
    ensures
        revisions_of(config, after) matches Ok(rs) && rs.to_multiset() == revisions_of(
            config,
            before,
        )->Ok_0.to_multiset().remove(r).insert((RevisionView { tag: Some(text), ..r })),
{
    let now = tagged(held, r, text);
    let new = RevisionView { tag: Some(text), ..r };
    let rs = revisions_of(config, before)->Ok_0;
    let (x, y) = (founds(config, before), founds(config, after));
    lemma_revisions(config, before);
    lemma_revisions(config, after);
    lemma_names(config, held, before);
    lemma_names(config, now, after);
    rs.to_multiset_ensures();
    assert(total(x).contains(r));
    let i = lemma_found_somewhere(config, before, r);
    assert forall|j: int, k: int|
        0 <= j < before.len() && 0 <= k < after.len() && (#[trigger] before[j]).name@ == (
        #[trigger] after[k]).name@ implies assembled(config, after[k]) == if j == i {
        Assembled::Found(new)
    } else {
        assembled(config, before[j])
    } by {
        if j == i {
            lemma_tag_read(config, held, r, text, before[i], after[k]);
        } else {
            if j < i {
                assert(record_of_name(before[j].name@, 'a') is Some ==> record_of_name(
                    before[j].name@,
                    'a',
                ) != record_of_name(before[i].name@, 'a'));
            } else {
                assert(record_of_name(before[i].name@, 'a') != record_of_name(before[j].name@, 'a'));
            }
            lemma_tag_elsewhere(config, held, r, text, before[i], before[j].name@);
            lemma_assembled_alike(config, held, now, before[j], after[k]);
        }
    }
    assert forall|name: Seq<char>| #[trigger] is_named(x, name) <==> is_named(y, name) by {
        assert(is_named(x, name) <==> has_record(held, name));
        assert(is_named(y, name) <==> has_record(now, name));
    }
    assert forall|j: int, k: int|
        0 <= j < x.len() && 0 <= k < y.len() && (#[trigger] x[j]).0 == (
        #[trigger] y[k]).0 implies y[k].1 == if j == i {
        Multiset::singleton(new)
    } else {
        x[j].1
    } by {
        assert(before[j].name@ == after[k].name@);
    }
    lemma_total_replaced(x, i, y, Multiset::singleton(new));
    if revisions_of(config, after) is Err {
        let k = choose|k: int| 0 <= k < after.len() && assembled(config, #[trigger] after[k]) is Refused;
        let name = after[k].name@;
        assert(has_record(now, name));
        assert(has_record(held, name));
        assert(is_read(before, name));
        let j = choose|j: int| 0 <= j < before.len() && (#[trigger] before[j]).name@ == name;
        assert(!(assembled(config, before[j]) is Refused));
    } else {
        assert(total(x).remove(r).insert(new) =~= total(x.remove(i)).add(Multiset::singleton(new)));
    }
}

proof fn lemma_tag_read(
    config: ConfigView,
    held: Held,
    r: RevisionView,
    text: Seq<char>,
    before: RecordRead,
    after: RecordRead,
)
    requires
        ends_plainly(text),
        shows(held, before),
        shows(tagged(held, r, text), after),
        before.name@ == after.name@,
        assembled(config, before) == Assembled::Found(r),
    ensures
        assembled(config, after) == Assembled::Found((RevisionView { tag: Some(text), ..r })),
{
    lemma_text_round_trip(text);
    lemma_record_parts(before.name@, 'a');
}

proof fn lemma_tag_elsewhere(
    config: ConfigView,
    held: Held,
    r: RevisionView,
    text: Seq<char>,
    own: RecordRead,
    name: Seq<char>,
)
    requires
        assembled(config, own) == Assembled::Found(r),
        record_of_name(name, 'a') is Some ==> record_of_name(name, 'a') != record_of_name(
            own.name@,
            'a',
        ),
    ensures
        agree_on(held, tagged(held, r, text), name),
{
    lemma_record_parts(own.name@, 'a');
    match record_of_name(name, 'a') {
        Some((key, leaf, number)) => {
            lemma_record_parts(name, 'a');
            law_record_names_differ(key, leaf, number, r.key, r.leaf, r.number as nat, 't');
        },
        None => {},
    }
}

/// What rendering a revision gives: its backup where it has no diff, else the backup with the diff
/// applied.
pub open spec fn rendered(
    held: Held,
    r: RevisionView,
    patched: spec_fn(Seq<u8>, Seq<u8>) -> Seq<u8>,
) -> Option<Seq<u8>> {
    let backup = file_at(
        held.files,
        Place::Backups,
        name_of_record(r.key, r.leaf, r.number as nat, 'b'),
    );
    let diff = file_at(
        held.files,
        Place::Edits,
        name_of_record(r.key, r.leaf, r.number as nat, 'd'),
    );
    match (r.diff, backup, diff) {
        (None, Some(content), _) => Some(content),
        (Some(_), Some(content), Some(change)) => Some(patched(content, change)),
        _ => None,
    }
}

/// What is given back of a content that a revision was made for: the content itself where it is
/// stored whole, else what applying the diff to the old content makes.
pub open spec fn given_back(
    p: PreparedView,
    baseline: Seq<u8>,
    represented: Seq<u8>,
    patched: spec_fn(Seq<u8>, Seq<u8>) -> Seq<u8>,
) -> Seq<u8> {
    match p.payload.diff {
        Some(change) => patched(baseline, change),
        None => represented,
    }
}

/// A revision renders to the content that it was made for. Where a diff is stored with it, this
/// holds of whatever applies diffs, provided that the diff takes the old content to the new one. A
/// revision that could be compared keeps the old content, and has a diff exactly where the new one
/// differs, provided that a diff is empty exactly where nothing differs; one that could not be
/// compared keeps the new content, without a diff.
pub proof fn law_revision_renders_to_its_content(
    config: ConfigView,
    held: Held,
    p: PreparedView,
    number: nat,
    baseline: Seq<u8>,
    represented: Seq<u8>,
    generated: Result<Vec<u8>, Failure>,
    patched: spec_fn(Seq<u8>, Seq<u8>) -> Seq<u8>,
)
    requires
        number <= u64::MAX,
        p.payload == payload_of(baseline, represented, generated),
    ensures
        ({
            let now = published(held, p, config, number);
            let r = published_revision(p, config, number);
            let backup = file_at(
                now.files,
                Place::Backups,
                name_of_record(r.key, r.leaf, r.number as nat, 'b'),
            );
            &&& rendered(now, r, patched) == Some(given_back(p, baseline, represented, patched))
            &&& (p.payload.diff matches Some(change) ==> patched(baseline, change) == represented)
                ==> rendered(now, r, patched) == Some(represented)
            &&& match generated {
                Ok(diff) => (diff@.len() == 0 <==> baseline == represented) ==> {
                    &&& backup == Some(baseline)
                    &&& r.diff is Some <==> baseline != represented
                },
                Err(_) => backup == Some(represented) && r.diff is None && rendered(now, r, patched)
                    == Some(represented),
            }
        }),
{
    lemma_published(held.files, p, config, number);
}

/// What a revision renders to is not changed by the revisions that are published after it.
pub proof fn law_later_revisions_change_no_content(
    config: ConfigView,
    held: Held,
    p: PreparedView,
    number: nat,
    r: RevisionView,
    patched: spec_fn(Seq<u8>, Seq<u8>) -> Seq<u8>,
)
    requires
        is_recordable(p, config),
        number <= u64::MAX,
        ends_cleanly(r.key, SEPARATOR@),
        ends_cleanly(r.leaf, SEPARATOR@),
        (r.key, r.leaf, r.number as nat) != (p.key, p.leaf, number),
    ensures
        rendered(published(held, p, config, number), r, patched) == rendered(held, r, patched),
{
    let name = name_of_record(r.key, r.leaf, r.number as nat, 'a');
    law_record_name_round_trip(r.key, r.leaf, r.number as nat, 'a');
    lemma_others_stay(held, p, config, number, name);
}

/// Whether the access records under a key and a file name are those of a file, and each of them is
/// listed.
pub open spec fn is_record_of(
    config: ConfigView,
    read: RecordRead,
    key: Seq<char>,
    leaf: Seq<char>,
    path: Seq<char>,
) -> bool {
    number_for(read.name@, key, leaf) is Some <==> (assembled(config, read) matches Assembled::Found(
        r,
    ) && same_path_text(r.access.path, path))
}

/// The latest revision of a file has the greatest number that the repository gives the file, where
/// no other file shares its key and name and none of its records lacks its backup.
pub proof fn law_latest_has_the_greatest_number(
    config: ConfigView,
    held: Held,
    reads: Seq<RecordRead>,
    key: Seq<char>,
    leaf: Seq<char>,
    path: Seq<char>,
)
    requires
        lists(held, reads),
        forall|i: int|
            0 <= i < reads.len() ==> is_record_of(config, #[trigger] reads[i], key, leaf, path),
        revisions_of(config, reads) matches Ok(rs) && latest_place(rs, path, rs.len() as int) is Some,
    ensures
        ({
            let rs = revisions_of(config, reads)->Ok_0;
            let latest = latest_place(rs, path, rs.len() as int)->0;
            is_greatest(held, key, leaf, rs[latest].number as nat)
        }),
{
    let rs = revisions_of(config, reads)->Ok_0;
    let latest = latest_place(rs, path, rs.len() as int)->0;
    let parts = founds(config, reads);
    lemma_revisions(config, reads);
    law_latest_is_greatest(rs, path, rs.len() as int);
    rs.to_multiset_ensures();
    assert(rs.contains(rs[latest]));
    let i = lemma_found_somewhere(config, reads, rs[latest]);
    lemma_record_parts(reads[i].name@, 'a');
    assert(has_record(held, reads[i].name@));
    assert(is_record_of(config, reads[i], key, leaf, path));
    assert(has_number(held, key, leaf, rs[latest].number as nat));
    assert forall|other: nat| #[trigger] has_number(held, key, leaf, other) implies other
        <= rs[latest].number by {
        let name = choose|name: Seq<char>| #[trigger]
            has_record(held, name) && number_for(name, key, leaf) == Some(other);
        assert(is_read(reads, name));
        let j = choose|j: int| 0 <= j < reads.len() && (#[trigger] reads[j]).name@ == name;
        assert(is_record_of(config, reads[j], key, leaf, path));
        lemma_record_parts(name, 'a');
        let r = assembled(config, reads[j])->Found_0;
        lemma_total_without(parts, j);
        assert(parts[j].1.contains(r));
        assert(rs.to_multiset().contains(r));
        assert(rs.contains(r));
        let k = choose|k: int| 0 <= k < rs.len() && rs[k] == r;
        assert(same_path_text(rs[k].access.path, path));
    }
}

/// What a revision is recorded with: the diff that was made, the time and its stamp, and the number
/// that it gets.
pub ghost struct Recording {
    pub generated: Result<Vec<u8>, Failure>,
    pub epoch: u64,
    pub stamp: Seq<char>,
    pub number: nat,
}

/// A restore from its beginning to its end: what is restored, and what happens on the way.
pub ghost struct Restoring {
    pub path: Seq<char>,
    pub editor: Seq<char>,
    pub mirrored: bool,
    pub latest: usize,
    pub live: Seq<u8>,
    /// What the latest revision renders to.
    pub represented: Vec<u8>,
    /// What is restored.
    pub target: Vec<u8>,
    /// How what was changed since the latest revision is recorded, where anything was.
    pub sync: Recording,
    pub synced: CreatedRevision,
    /// How the restore is recorded.
    pub own: Recording,
}

impl Restoring {
    /// Whether the live file was changed since the latest revision.
    pub open spec fn is_changed(self) -> bool {
        self.represented@ != self.live
    }

    /// The restore when the latest revision was rendered.
    pub open spec fn looked(self) -> RestoreView {
        restore_after(
            restore_start(self.latest, self.live),
            RestoreEvent::Bytes(Ok(self.represented)),
        )
    }

    /// The restore when the live file was replaced.
    pub open spec fn replaced(self) -> RestoreView {
        let recorded = if self.is_changed() {
            restore_after(self.looked(), RestoreEvent::Created(Ok(self.synced)))
        } else {
            self.looked()
        };
        restore_after(
            restore_after(recorded, RestoreEvent::Bytes(Ok(self.target))),
            RestoreEvent::Replaced(Ok(())),
        )
    }

    /// The revision that holds what was changed since the latest one.
    pub open spec fn sync_revision(self) -> PreparedView {
        prepared_from(
            restore_recording(self.looked(), self.path, self.editor, self.mirrored),
            self.sync.generated,
            self.sync.epoch,
            self.sync.stamp,
        )
    }

    /// The revision that holds what was restored.
    pub open spec fn own_revision(self) -> PreparedView {
        prepared_from(
            restore_recording(self.replaced(), self.path, self.editor, self.mirrored),
            self.own.generated,
            self.own.epoch,
            self.own.stamp,
        )
    }

    /// A repository when what was changed is recorded.
    pub open spec fn after_sync(self, held: Held, config: ConfigView) -> Held {
        if self.is_changed() {
            published(held, self.sync_revision(), config, self.sync.number)
        } else {
            held
        }
    }

    /// A repository when the restore is recorded.
    pub open spec fn after_all(self, held: Held, config: ConfigView) -> Held {
        published(self.after_sync(held, config), self.own_revision(), config, self.own.number)
    }

    /// Whether what the restore records can be recorded in a repository.
    pub open spec fn can_record(self, held: Held, config: ConfigView) -> bool {
        &&& self.is_changed() ==> is_recordable(self.sync_revision(), config) && has_room(
            held,
            self.sync_revision(),
            config,
            self.sync.number,
        )
        &&& is_recordable(self.own_revision(), config)
        &&& has_room(
            self.after_sync(held, config),
            self.own_revision(),
            config,
            self.own.number,
        )
    }

    /// Whether applying the diffs that are made gives what they were made for.
    pub open spec fn is_patched_by(self, patched: spec_fn(Seq<u8>, Seq<u8>) -> Seq<u8>) -> bool {
        &&& self.sync_revision().payload.diff matches Some(change) ==> patched(
            self.represented@,
            change,
        ) == self.live
        &&& self.own_revision().payload.diff matches Some(change) ==> patched(self.live, change)
            == self.target@
    }
}

/// A restore of a file that was not changed since its latest revision adds one revision, with the
/// next number; it renders to what was restored. A file that was changed gets a revision with
/// "sync" for its editor before, which renders to the live content. Where diffs are stored, this
/// rests on what applies them. Nothing else of the list changes. A restore that cannot be recorded
/// goes back to the live content.
pub proof fn law_restore_is_recorded(
    config: ConfigView,
    held: Held,
    restoring: Restoring,
    latest: nat,
    first: Seq<AllocationRead>,
    second: Seq<AllocationRead>,
    before: Seq<RecordRead>,
    between: Seq<RecordRead>,
    after: Seq<RecordRead>,
    patched: spec_fn(Seq<u8>, Seq<u8>) -> Seq<u8>,
)
    requires
        restoring.can_record(held, config),
        is_greatest(held, restoring.own_revision().key, restoring.own_revision().leaf, latest),
        restoring.is_changed() ==> allocates(held, first) && next_number(
            first,
            restoring.sync_revision().key,
            restoring.sync_revision().leaf,
        ) == Ok::<nat, FailureView>(restoring.sync.number),
        allocates(restoring.after_sync(held, config), second),
        next_number(second, restoring.own_revision().key, restoring.own_revision().leaf) == Ok::<
            nat,
            FailureView,
        >(restoring.own.number),
        lists(held, before),
        lists(restoring.after_sync(held, config), between),
        lists(restoring.after_all(held, config), after),
        revisions_of(config, before) is Ok,
    ensures
        ({
            let r = restoring;
            let old = revisions_of(config, before)->Ok_0.to_multiset();
            let sync = published_revision(r.sync_revision(), config, r.sync.number);
            let own = published_revision(r.own_revision(), config, r.own.number);
            let now = r.after_all(held, config);
            &&& r.looked().stage == if r.is_changed() {
                RestoreStage::RecordSync
            } else {
                RestoreStage::ReadTarget
            }
            &&& r.replaced().stage == RestoreStage::Record
            &&& r.own.number == latest + if r.is_changed() {
                2int
            } else {
                1int
            }
            &&& own.access.path == r.path && own.access.editor == r.editor
            &&& rendered(now, own, patched) == Some(
                given_back(r.own_revision(), r.live, r.target@, patched),
            )
            &&& r.is_patched_by(patched) ==> rendered(now, own, patched) == Some(r.target@)
            &&& revisions_of(config, after) matches Ok(rs) && rs.to_multiset() == if r.is_changed() {
                old.insert(sync).insert(own)
            } else {
                old.insert(own)
            }
            &&& r.is_changed() ==> {
                &&& r.sync.number == latest + 1
                &&& sync.access.path == r.path && sync.access.editor == "sync"@
                &&& rendered(now, sync, patched) == Some(
                    given_back(r.sync_revision(), r.represented@, r.live, patched),
                )
                &&& r.is_patched_by(patched) ==> rendered(now, sync, patched) == Some(r.live)
            }
            &&& forall|f: Failure|
                {
                    let undone = #[trigger] restore_after(
                        r.replaced(),
                        RestoreEvent::Created(Err(f)),
                    );
                    undone.stage == RestoreStage::PutBack && undone.live == r.live
                        && undone.failure == Some(f@)
                }
        }),
{
    let r = restoring;
    let (p, q) = (r.sync_revision(), r.own_revision());
    let middle = r.after_sync(held, config);
    if r.is_changed() {
        law_publishing_adds_one_revision(
            config,
            held,
            p,
            r.sync.number,
            first,
            before,
            between,
        );
        lemma_one_greatest(held, p.key, p.leaf, latest, (r.sync.number - 1) as nat);
        law_numbers_count_on(middle, second, q.key, q.leaf);
        lemma_one_greatest(middle, p.key, p.leaf, r.sync.number, (r.own.number - 1) as nat);
        law_revision_renders_to_its_content(
            config,
            held,
            p,
            r.sync.number,
            r.represented@,
            r.live,
            r.sync.generated,
            patched,
        );
        law_later_revisions_change_no_content(
            config,
            middle,
            q,
            r.own.number,
            published_revision(p, config, r.sync.number),
            patched,
        );
    } else {
        law_reading_order_does_not_matter(config, held, before, between);
        law_numbers_count_on(held, second, q.key, q.leaf);
        lemma_one_greatest(held, q.key, q.leaf, latest, (r.own.number - 1) as nat);
    }
    law_publishing_adds_one_revision(config, middle, q, r.own.number, second, between, after);
    law_revision_renders_to_its_content(
        config,
        middle,
        q,
        r.own.number,
        r.live,
        r.target@,
        r.own.generated,
        patched,
    );
}

proof fn lemma_one_greatest(held: Held, key: Seq<char>, leaf: Seq<char>, a: nat, b: nat)
    requires
        is_greatest(held, key, leaf, a),
        is_greatest(held, key, leaf, b),
    ensures
        a == b,
{
    if a > 0 {
        assert(has_number(held, key, leaf, a));
    }
    if b > 0 {
        assert(has_number(held, key, leaf, b));
    }
}

/// What an entry of the index says of a published revision.
pub open spec fn index_entry(
    p: PreparedView,
    number: nat,
    kind: char,
    directory: Seq<char>,
) -> IndexView {
    IndexView {
        branch: trimmed(p.directory + "\n"@),
        leaf: p.leaf,
        revision: number as u64,
        kind,
        target: joined_path(directory, name_of_record(p.key, p.leaf, number, kind)),
    }
}

/// The entries of the index that belong to a published revision.
pub open spec fn index_entries(p: PreparedView, config: ConfigView, number: nat) -> Multiset<
    IndexView,
> {
    let both = Multiset::singleton(index_entry(p, number, 'a', config.access)).insert(
        index_entry(p, number, 'b', config.backups),
    );
    if published_revision(p, config, number).diff is Some {
        both.insert(index_entry(p, number, 'd', config.edits))
    } else {
        both
    }
}

/// Whether a branch has something under the name of a link of the index.
pub open spec fn has_link(files: Files, name: Seq<char>) -> bool {
    files.contains_key((Place::Branch, name)) && link_of_name(name) is Some
}

/// Whether the links of a branch were read as the repository holds them: every one once, in
/// whatever order.
pub open spec fn shows_links(files: Files, links: Seq<LinkRead>) -> bool {
    &&& forall|i: int, j: int|
        0 <= i < j < links.len() ==> (#[trigger] links[i]).name@ != (#[trigger] links[j]).name@
    &&& forall|i: int|
        0 <= i < links.len() ==> has_link(files, (#[trigger] links[i]).name@) && match (
            links[i].target,
            files[(Place::Branch, links[i].name@)],
        ) {
            (Ok(read), ContentView::Link(target)) => read@ == target,
            (Ok(_), ContentView::File(_)) => false,
            (Err(_), content) => content is File,
        }
    &&& forall|name: Seq<char>| #[trigger]
        has_link(files, name) ==> exists|i: int|
            0 <= i < links.len() && (#[trigger] links[i]).name@ == name
}

/// Whether a branch of the index was read as the repository holds it: its directory and its links.
pub open spec fn shows_branch(files: Files, directory: Seq<char>, read: BranchRead) -> bool {
    &&& read.branch matches Ok(bytes) && bytes@ == encode_utf8(directory + "\n"@)
    &&& read.links matches Ok(links) && shows_links(files, links@)
}

/// Whether the links of a new revision have names that nothing has.
pub open spec fn links_are_free(files: Files, p: PreparedView, number: nat) -> bool {
    &&& !files.contains_key((Place::Branch, link_name(p.leaf, number, 'a')))
    &&& !files.contains_key((Place::Branch, link_name(p.leaf, number, 'b')))
    &&& p.payload.diff is Some ==> !files.contains_key(
        (Place::Branch, link_name(p.leaf, number, 'd')),
    )
}

/// The entry that a link comes to, if any.
spec fn linked(branch: Seq<char>, link: LinkRead) -> Multiset<IndexView> {
    match (link_of_name(link.name@), link.target) {
        (Some((leaf, revision, kind)), Ok(target)) => Multiset::singleton(
            IndexView { branch, leaf, revision: revision as u64, kind, target: target@ },
        ),
        _ => Multiset::empty(),
    }
}

/// Whether a link is none of the index, or one that could be read.
spec fn is_followed(link: LinkRead) -> bool {
    link_of_name(link.name@) is Some ==> link.target is Ok
}

/// What each link comes to.
spec fn links_of(branch: Seq<char>, links: Seq<LinkRead>) -> Seq<Part<IndexView>> {
    Seq::new(links.len(), |i: int| (links[i].name@, linked(branch, links[i])))
}

proof fn lemma_branch_entries(branch: Seq<char>, links: Seq<LinkRead>, n: int)
    requires
        0 <= n <= links.len(),
    ensures
        branch_entries(branch, links, n) is Ok <==> forall|i: int|
            0 <= i < n ==> is_followed(#[trigger] links[i]),
        branch_entries(branch, links, n) matches Ok(es) ==> es.to_multiset() == total(
            links_of(branch, links.take(n)),
        ),
    decreases n,
{
    if n > 0 {
        lemma_branch_entries(branch, links, n - 1);
        let parts = links_of(branch, links.take(n));
        assert(parts.drop_last() =~= links_of(branch, links.take(n - 1)));
        assert(parts.last().1 == linked(branch, links[n - 1]));
        match branch_entries(branch, links, n - 1) {
            Ok(before) => {
                match (link_of_name(links[n - 1].name@), links[n - 1].target) {
                    (Some((leaf, revision, kind)), Ok(target)) => {
                        let e = IndexView {
                            branch,
                            leaf,
                            revision: revision as u64,
                            kind,
                            target: target@,
                        };
                        vstd::seq_lib::to_multiset_build(before, e);
                        assert(before.push(e).to_multiset() =~= before.to_multiset().add(
                            Multiset::singleton(e),
                        ));
                    },
                    _ => {
                        assert(before.to_multiset() =~= before.to_multiset().add(
                            Multiset::empty(),
                        ));
                    },
                }
            },
            Err(_) => {},
        }
    } else {
        Seq::<IndexView>::empty().to_multiset_ensures();
        assert(Seq::<IndexView>::empty().to_multiset() =~= Multiset::empty());
    }
}

proof fn lemma_branch_names(files: Files, branch: Seq<char>, links: Seq<LinkRead>)
    requires
        shows_links(files, links),
    ensures
        named_once(links_of(branch, links)),
        forall|name: Seq<char>| #[trigger]
            is_named(links_of(branch, links), name) <==> has_link(files, name),
{
    let parts = links_of(branch, links);
    assert forall|i: int, j: int| 0 <= i < j < parts.len() implies (#[trigger] parts[i]).0 != (
    #[trigger] parts[j]).0 by {
        assert(links[i].name@ != links[j].name@);
    }
    assert forall|name: Seq<char>| #[trigger] is_named(parts, name) <==> has_link(files, name) by {
        if is_named(parts, name) {
            let i = choose|i: int| 0 <= i < parts.len() && (#[trigger] parts[i]).0 == name;
            assert(has_link(files, links[i].name@));
        }
        if has_link(files, name) {
            let i = choose|i: int| 0 <= i < links.len() && (#[trigger] links[i]).name@ == name;
            assert(parts[i].0 == name);
        }
    }
}

proof fn lemma_link_name(leaf: Seq<char>, number: nat, kind: char)
    requires
        ends_cleanly(leaf, SEPARATOR@),
        number <= u64::MAX,
        kind == 'a' || kind == 'b' || kind == 'd',
    ensures
        link_of_name(link_name(leaf, number, kind)) == Some((leaf, number, kind)),
        link_name(leaf, number, kind).last() == kind,
{
    reveal_strlit("::_::");
    reveal_strlit("index");
    reveal_strlit(".branch");
    let name = link_name(leaf, number, kind);
    let full = "index"@ + SEPARATOR@ + name;
    assert(full =~= name_of_record("index"@, leaf, number, kind));
    lemma_ends_cleanly("index"@, SEPARATOR@);
    law_record_name_round_trip("index"@, leaf, number, kind);
    assert(name.len() > ".branch"@.len());
    assert(seq![kind][0] == kind && seq!['a'][0] == 'a' && seq!['b'][0] == 'b' && seq!['d'][0]
        == 'd');
}

/// Whether what a branch has under a name is the same before and after.
spec fn link_stays(before: Files, after: Files, name: Seq<char>) -> bool {
    let key = (Place::Branch, name);
    after.contains_key(key) == before.contains_key(key) && (before.contains_key(key) ==> after[key]
        == before[key])
}

proof fn lemma_links_written(files: Files, p: PreparedView, config: ConfigView, number: nat)
    requires
        number <= u64::MAX,
        ends_cleanly(p.leaf, SEPARATOR@),
    ensures
        ({
            let steps = publication_steps(p, config, number);
            let end = after_steps(files, steps, steps.len() as int);
            let a = (Place::Branch, link_name(p.leaf, number, 'a'));
            let b = (Place::Branch, link_name(p.leaf, number, 'b'));
            let d = (Place::Branch, link_name(p.leaf, number, 'd'));
            &&& end.contains_key(a) && end[a] == link_step(p, number, 'a', config.access).content
            &&& end.contains_key(b) && end[b] == link_step(p, number, 'b', config.backups).content
            &&& p.payload.diff is Some ==> end.contains_key(d) && end[d] == link_step(
                p,
                number,
                'd',
                config.edits,
            ).content
            &&& forall|name: Seq<char>|
                name != a.1 && name != b.1 && !(name == d.1 && p.payload.diff is Some)
                    ==> #[trigger] link_stays(files, end, name)
        }),
{
    let steps = publication_steps(p, config, number);
    let n = steps.len() as int;
    let end = after_steps(files, steps, n);
    let d: int = if p.payload.diff is Some { 1 } else { 0 };
    let a: int = if config.actor != config.history_owner { 1 } else { 0 };
    lemma_link_name(p.leaf, number, 'a');
    lemma_link_name(p.leaf, number, 'b');
    lemma_link_name(p.leaf, number, 'd');
    assert(n == 4 + 2 * d + a);
    assert(steps[0].place == Place::Backups);
    assert(d == 1 ==> steps[1].place == Place::Edits);
    assert(steps[1 + d].place == Place::Access);
    assert(a == 1 ==> steps[2 + d].place == Place::Actors);
    assert(steps[2 + d + a] == link_step(p, number, 'b', config.backups));
    assert(steps[3 + 2 * d + a] == link_step(p, number, 'a', config.access));
    lemma_written(files, steps, 3 + 2 * d + a, n);
    if d == 1 {
        assert(steps[3 + d + a] == link_step(p, number, 'd', config.edits));
        lemma_written(files, steps, 3 + d + a, n);
    }
    lemma_written(files, steps, 2 + d + a, n);
    assert(end[(Place::Branch, link_name(p.leaf, number, 'a'))] == link_step(
        p,
        number,
        'a',
        config.access,
    ).content);
    assert(end[(Place::Branch, link_name(p.leaf, number, 'b'))] == link_step(
        p,
        number,
        'b',
        config.backups,
    ).content);
    assert forall|name: Seq<char>|
        name != link_name(p.leaf, number, 'a') && name != link_name(p.leaf, number, 'b') && !(name
            == link_name(p.leaf, number, 'd') && p.payload.diff is Some) implies #[trigger] link_stays(
        files,
        end,
        name,
    ) by {
        lemma_after_steps(files, steps, n, (Place::Branch, name));
    }
}

proof fn lemma_branch_grows(
    config: ConfigView,
    files: Files,
    p: PreparedView,
    number: nat,
    branch: Seq<char>,
    old_links: Seq<LinkRead>,
    new_links: Seq<LinkRead>,
)
    requires
        number <= u64::MAX,
        ends_cleanly(p.leaf, SEPARATOR@),
        links_are_free(files, p, number),
        branch == trimmed(p.directory + "\n"@),
        shows_links(files, old_links),
        ({
            let steps = publication_steps(p, config, number);
            shows_links(after_steps(files, steps, steps.len() as int), new_links)
        }),
        branch_entries(branch, old_links, old_links.len() as int) is Ok,
    ensures
        branch_entries(branch, new_links, new_links.len() as int) matches Ok(es)
            && es.to_multiset() == branch_entries(
            branch,
            old_links,
            old_links.len() as int,
        )->Ok_0.to_multiset().add(index_entries(p, config, number)),
{
    let steps = publication_steps(p, config, number);
    let end = after_steps(files, steps, steps.len() as int);
    let (n, m) = (old_links.len() as int, new_links.len() as int);
    lemma_branch_entries(branch, old_links, n);
    lemma_branch_entries(branch, new_links, m);
    assert(old_links.take(n) =~= old_links);
    assert(new_links.take(m) =~= new_links);
    let (x, y) = (links_of(branch, old_links), links_of(branch, new_links));
    lemma_branch_names(files, branch, old_links);
    lemma_branch_names(end, branch, new_links);
    lemma_links_written(files, p, config, number);
    let kinds = if p.payload.diff is Some {
        seq!['a', 'b', 'd']
    } else {
        seq!['a', 'b']
    };
    let added = Seq::new(
        kinds.len(),
        |i: int| (link_name(p.leaf, number, kinds[i]), new_part(p, config, number, kinds[i])),
    );
    lemma_link_name(p.leaf, number, 'a');
    lemma_link_name(p.leaf, number, 'b');
    lemma_link_name(p.leaf, number, 'd');
    assert(kinds[0] == 'a' && kinds[1] == 'b' && (kinds.len() == 3 ==> kinds[2] == 'd'));
    assert forall|i: int| 0 <= i < kinds.len() implies #[trigger] kinds[i] == 'a' || kinds[i] == 'b'
        || (kinds[i] == 'd' && p.payload.diff is Some) by {}
    assert forall|name: Seq<char>| #[trigger] is_named(added, name) <==> (name == link_name(
        p.leaf,
        number,
        'a',
    ) || name == link_name(p.leaf, number, 'b') || (name == link_name(p.leaf, number, 'd')
        && p.payload.diff is Some)) by {
        if is_named(added, name) {
            let i = choose|i: int| 0 <= i < added.len() && (#[trigger] added[i]).0 == name;
            assert(name == link_name(p.leaf, number, kinds[i]));
        }
        assert(added[0].0 == link_name(p.leaf, number, 'a'));
        assert(added[1].0 == link_name(p.leaf, number, 'b'));
        assert(kinds.len() == 3 ==> added[2].0 == link_name(p.leaf, number, 'd'));
    }
    assert forall|name: Seq<char>| #[trigger] is_named(x, name) implies !is_named(added, name) by {
        assert(has_link(files, name));
    }
    assert forall|name: Seq<char>| #[trigger] is_named(y, name) <==> is_named(x, name) || is_named(
        added,
        name,
    ) by {
        assert(is_named(y, name) <==> has_link(end, name));
        if !is_named(added, name) {
            assert(link_stays(files, end, name));
        }
    }
    assert forall|j: int, k: int|
        0 <= j < n && 0 <= k < m && (#[trigger] old_links[j]).name@ == (
        #[trigger] new_links[k]).name@ implies linked(branch, old_links[j]) == linked(
        branch,
        new_links[k],
    ) && is_followed(new_links[k]) by {
        let name = old_links[j].name@;
        assert(has_link(files, name));
        assert(is_named(x, name));
        assert(!is_named(added, name));
        assert(link_stays(files, end, name));
        assert(is_followed(old_links[j]));
    }
    assert forall|k: int| 0 <= k < m && is_named(added, (#[trigger] new_links[k]).name@) implies {
        &&& is_followed(new_links[k])
        &&& linked(branch, new_links[k]) == new_part(
            p,
            config,
            number,
            new_links[k].name@.last(),
        )
    } by {
        assert(has_link(end, new_links[k].name@));
    }
    assert(agree(x, y)) by {
        assert forall|j: int, k: int|
            0 <= j < x.len() && 0 <= k < y.len() && (#[trigger] x[j]).0 == (#[trigger] y[k]).0 implies x[j].1
            == y[k].1 by {
            assert(old_links[j].name@ == new_links[k].name@);
        }
    }
    assert(agree(added, y)) by {
        assert forall|j: int, k: int|
            0 <= j < added.len() && 0 <= k < y.len() && (#[trigger] added[j]).0 == (
            #[trigger] y[k]).0 implies added[j].1 == y[k].1 by {
            assert(is_named(added, new_links[k].name@));
            assert(kinds[j] == 'a' || kinds[j] == 'b' || kinds[j] == 'd');
        }
    }
    assert forall|i: int, j: int| 0 <= i < j < added.len() implies (#[trigger] added[i]).0 != (
    #[trigger] added[j]).0 by {
        assert(added[i].0.last() == kinds[i] && added[j].0.last() == kinds[j]);
    }
    lemma_total_added(x, added, y);
    lemma_total_new(p, config, number, added);
    assert forall|k: int| 0 <= k < m implies is_followed(#[trigger] new_links[k]) by {
        let name = new_links[k].name@;
        assert(has_link(end, name));
        assert(is_named(y, name));
        if !is_named(added, name) {
            assert(is_named(x, name));
            let j = choose|j: int| 0 <= j < x.len() && (#[trigger] x[j]).0 == name;
            assert(old_links[j].name@ == new_links[k].name@);
        }
    }
}

/// What a link of a published revision comes to.
spec fn new_part(p: PreparedView, config: ConfigView, number: nat, kind: char) -> Multiset<IndexView> {
    let directory = if kind == 'a' {
        config.access
    } else if kind == 'b' {
        config.backups
    } else {
        config.edits
    };
    Multiset::singleton(index_entry(p, number, kind, directory))
}

proof fn lemma_total_new(
    p: PreparedView,
    config: ConfigView,
    number: nat,
    added: Seq<Part<IndexView>>,
)
    requires
        added.len() == if p.payload.diff is Some {
            3int
        } else {
            2int
        },
        added[0].1 == new_part(p, config, number, 'a'),
        added[1].1 == new_part(p, config, number, 'b'),
        p.payload.diff is Some ==> added[2].1 == new_part(p, config, number, 'd'),
    ensures
        total(added) == index_entries(p, config, number),
{
    reveal_with_fuel(total, 4);
    assert(total(added) =~= index_entries(p, config, number));
}

/// Whether an entry of the index speaks of a revision.
pub open spec fn speaks_of(e: IndexView, p: PreparedView, number: nat) -> bool {
    e.branch == trimmed(p.directory + "\n"@) && e.leaf == p.leaf && e.revision == number as u64
}

/// Publishing a revision adds its entries to the index: one for its access record, one for its
/// backup and, where it has one, one for its diff, each leading to its record. Nothing else of the
/// index changes, and it stays in order; so where nothing in the index spoke of the revision, its
/// entries are exactly these. A branch that the revision is the first of is new.
pub proof fn law_publishing_adds_to_the_index(
    config: ConfigView,
    held: Held,
    p: PreparedView,
    number: nat,
    at: int,
    old_branch: Option<BranchRead>,
    before: Seq<BranchRead>,
    after: Seq<BranchRead>,
)
    requires
        number <= u64::MAX,
        ends_cleanly(p.leaf, SEPARATOR@),
        links_are_free(held.files, p, number),
        0 <= at < after.len(),
        shows_branch(published(held, p, config, number).files, p.directory, after[at]),
        match old_branch {
            Some(branch) => before == after.update(at, branch) && shows_branch(
                held.files,
                p.directory,
                branch,
            ),
            None => before == after.remove(at) && forall|name: Seq<char>|
                !#[trigger] has_link(held.files, name),
        },
        index_of(before) is Ok,
    ensures
        index_of(after) matches Ok(es) && {
            let old_entries = index_of(before)->Ok_0.to_multiset();
            &&& es.to_multiset() == old_entries.add(index_entries(p, config, number))
            &&& (forall|e: IndexView| #[trigger]
                old_entries.contains(e) ==> !speaks_of(e, p, number)) ==> es.to_multiset().filter(
                |e: IndexView| speaks_of(e, p, number),
            ) == index_entries(p, config, number)
            &&& forall|i: int| 0 <= i < es.len() ==> has_kind(#[trigger] es[i])
            &&& forall|i: int, j: int|
                0 <= i < j < es.len() ==> indexed_before(#[trigger] es[i], #[trigger] es[j])
        },
{
    let text = p.directory + "\n"@;
    encode_utf8_valid_utf8(text);
    encode_utf8_decode_utf8(text);
    let branch = trimmed(text);
    let rest = after.remove(at);
    let added = index_entries(p, config, number);
    let new_links = after[at].links->Ok_0@;
    lemma_index_without(after, at);
    law_index_is_ordered(before);
    match old_branch {
        Some(read) => {
            assert(before.remove(at) =~= rest);
            lemma_index_without(before, at);
            lemma_branch_grows(
                config,
                held.files,
                p,
                number,
                branch,
                read.links->Ok_0@,
                new_links,
            );
        },
        None => {
            Seq::<IndexView>::empty().to_multiset_ensures();
            lemma_branch_grows(config, held.files, p, number, branch, Seq::empty(), new_links);
        },
    }
    law_index_is_ordered(after);
    let es = index_of(after)->Ok_0.to_multiset();
    let old_entries = index_of(before)->Ok_0.to_multiset();
    assert(es =~= old_entries.add(added));
    if forall|e: IndexView| #[trigger] old_entries.contains(e) ==> !speaks_of(e, p, number) {
        let mine = |e: IndexView| speaks_of(e, p, number);
        assert forall|e: IndexView| #[trigger] es.filter(mine).count(e) == added.count(e) by {
            if mine(e) {
                assert(!old_entries.contains(e));
            }
        }
        assert(es.filter(mine) =~= added);
    }
}

proof fn lemma_index_front(a: Seq<BranchRead>, b: Seq<BranchRead>, n: int)
    requires
        0 <= n <= a.len(),
        n <= b.len(),
        forall|i: int| 0 <= i < n ==> a[i] == b[i],
    ensures
        index_all(a, n) == index_all(b, n),
    decreases n,
{
    if n > 0 {
        lemma_index_front(a, b, n - 1);
    }
}

/// An index holds what it holds without a branch, and the entries of the branch.
proof fn lemma_index_without(reads: Seq<BranchRead>, at: int)
    requires
        0 <= at < reads.len(),
    ensures
        ({
            let whole = index_all(reads, reads.len() as int);
            let rest = index_all(reads.remove(at), reads.len() - 1);
            let own = entries_of_branch(reads[at]);
            &&& whole is Ok <==> rest is Ok && own is Ok
            &&& whole is Ok ==> whole->Ok_0.to_multiset() == rest->Ok_0.to_multiset().add(
                own->Ok_0.to_multiset(),
            )
        }),
    decreases reads.len(),
{
    let n = reads.len() as int;
    let fewer = reads.remove(at);
    if at == n - 1 {
        lemma_index_front(reads, fewer, n - 1);
        if index_all(reads, n - 1) is Ok && entries_of_branch(reads[at]) is Ok {
            vstd::seq_lib::lemma_multiset_commutative(
                index_all(reads, n - 1)->Ok_0,
                entries_of_branch(reads[at])->Ok_0,
            );
        }
    } else {
        let front = reads.drop_last();
        lemma_index_without(front, at);
        lemma_index_front(reads, front, n - 1);
        lemma_index_front(fewer, front.remove(at), n - 2);
        assert(fewer[n - 2] == reads[n - 1]);
        if index_all(front, n - 1) is Ok && entries_of_branch(reads[n - 1]) is Ok {
            let last = entries_of_branch(reads[n - 1])->Ok_0;
            let (x, y) = (index_all(front, n - 1)->Ok_0, index_all(front.remove(at), n - 2)->Ok_0);
            vstd::seq_lib::lemma_multiset_commutative(x, last);
            vstd::seq_lib::lemma_multiset_commutative(y, last);
            assert((x + last).to_multiset() =~= (y + last).to_multiset().add(
                entries_of_branch(reads[at])->Ok_0.to_multiset(),
            ));
        }
    }
}

/// A branch stands for the directory of its files, where that neither begins nor ends in white
/// space.
pub proof fn law_branch_is_its_directory(p: PreparedView)
    requires
        p.directory.len() > 0,
        !is_space(p.directory[0]),
        !is_space(p.directory.last()),
    ensures
        trimmed(p.directory + "\n"@) == p.directory,
{
    reveal_strlit("\n");
    let text = p.directory + "\n"@;
    assert(text[0] == p.directory[0]);
    assert(text.last() == '\n');
    assert(text.drop_last() =~= p.directory);
    reveal_with_fuel(trimmed_end, 2);
}

} // verus!
