//! The tables and reports of the commands: history, listing, search and comparison.

use crate::browse::{find_number, keep_once, sort_paths};
use crate::cli::{select_meant, CliError, Output, USAGE};
use crate::encoding::same_bytes;
use crate::order::{arrange, push_text_key, sort_order, Replicate};
use crate::path::{is_absolute, join as join_path, parent, push_path_key, same_path};
use crate::store::{IndexEntry, Revision};
use crate::text::{
    chars_of, contains, find_from, pad_left, pad_right, parse_bounded, replace, same, split,
    split_once, starts_with, text_of, to_decimal,
};
#[allow(unused_imports)]
use crate::{
    browse::{
        law_each_file_is_listed_once, law_paths_are_put_in_and_taken_out, lemma_place_of_number,
        once_each, path_keys, place_of_number, revision_paths,
    },
    cli::{
        chooses, labelled, meant_by, number_shown, painted, painted_diff, path_shown, raw, warned,
        CliErrorView,
    },
    encoding::lemma_encode_concat,
    order::{
        comes_before, key_at_most, key_begins, key_less, key_views, law_sorting_keeps_items,
        law_stable_order, law_text_keys_are_faithful, law_text_keys_are_separate, lemma_joined_keys,
        smaller_at, sorted_by_key, stable_order, text_key, text_less,
    },
    path::{
        components, is_rooted, joined_path, law_path_keys_are_faithful, law_path_keys_are_separate,
        law_path_keys_order_paths, parent_of, path_key, path_less, same_path_text,
    },
    store::{AccessView, IndexView, RevisionView},
    text::{
        all_views, begins_with, cut_at, decimal, first_occurrence, joined,
        law_joining_undoes_splitting, law_occurrence_splits_a_text, law_splitting_undoes_joining,
        lemma_decimal, lemma_ends_cleanly, lemma_first_occurrence_is, lemma_joined_occurs,
        lemma_occurs_between, lemma_occurs_in_a_part, lemma_one_line, lemma_pieces_last,
        lemma_pieces_step, occurs, occurs_at, one_line, opt_str, opt_view, padded_left,
        padded_right, parsed, pieces, replaced, views,
    },
};
use vstd::prelude::*;
#[allow(unused_imports)]
use vstd::utf8::{
    decode_utf8, decode_utf8_encode_utf8, decode_utf8_split, encode_utf8, encode_utf8_decode_utf8,
    encode_utf8_valid_utf8, is_ascii_chars, is_ascii_chars_encode_utf8, is_char_boundary,
    valid_utf8_split,
};

verus! {

/// The number of bytes of a text.
pub open spec fn byte_len(s: Seq<char>) -> nat {
    encode_utf8(s).len()
}

fn count_bytes(s: &str) -> (r: usize)
    ensures
        r == byte_len(s@),
{
    s.as_bytes().len()
}

/// The greatest number of bytes among the first `n` texts, and no less than a number.
pub open spec fn widest_bytes(list: Seq<Seq<char>>, n: int, least: nat) -> nat
    decreases n,
{
    if n <= 0 {
        least
    } else if byte_len(list[n - 1]) > widest_bytes(list, n - 1, least) {
        byte_len(list[n - 1])
    } else {
        widest_bytes(list, n - 1, least)
    }
}

/// The width of a column.
pub open spec fn column_width(list: Seq<Seq<char>>, least: nat) -> nat {
    widest_bytes(list, list.len() as int, least)
}

fn measure(list: &Vec<String>, least: usize) -> (r: usize)
    ensures
        r == column_width(views(list@), least as nat),
{
    let ghost l = views(list@);
    let mut most: usize = least;
    let mut i: usize = 0;
    while i < list.len()
        invariant
            i <= list.len(),
            l == views(list@),
            most == widest_bytes(l, i as int, least as nat),
        decreases list.len() - i,
    {
        assert(l[i as int] == list@[i as int]@);
        let n: usize = count_bytes(list[i].as_str());
        if n > most {
            most = n;
        }
        i += 1;
    }
    assert(l.len() == list@.len());
    most
}

/// The first four characters of a text.
pub open spec fn first_four(s: Seq<char>) -> Seq<char> {
    if s.len() <= 4 {
        s
    } else {
        s.subrange(0, 4)
    }
}

fn take_four(s: &str) -> (r: String)
    ensures
        r@ == first_four(s@),
{
    let x: Vec<char> = chars_of(s);
    if x.len() <= 4 {
        s.to_owned()
    } else {
        text_of(&x, 0, 4)
    }
}

/// The greatest number of a file among the first `n` revisions.
pub open spec fn latest_number(rs: Seq<RevisionView>, path: Seq<char>, n: int) -> u64
    decreases n,
{
    if n <= 0 {
        0
    } else {
        let before = latest_number(rs, path, n - 1);
        if same_path_text(rs[n - 1].access.path, path) && rs[n - 1].number > before {
            rs[n - 1].number
        } else {
            before
        }
    }
}

/// Whether a revision is the latest of its file.
pub open spec fn is_latest(rs: Seq<RevisionView>, r: RevisionView) -> bool {
    r.number == latest_number(rs, r.access.path, rs.len() as int)
}

/// Whether a revision is the latest of its file.
pub fn latest_of_file(rows: &Vec<Revision>, revision: &Revision) -> (r: bool)
    ensures
        r == is_latest(all_views(rows@), revision@),
{
    let ghost rs = all_views(rows@);
    let mut most: u64 = 0;
    let mut i: usize = 0;
    while i < rows.len()
        invariant
            i <= rows.len(),
            rs == all_views(rows@),
            most == latest_number(rs, revision.access.path@, i as int),
        decreases rows.len() - i,
    {
        assert(rs[i as int] == rows@[i as int]@);
        if same_path(rows[i].access.path.as_str(), revision.access.path.as_str()) && rows[i].number
            > most {
            most = rows[i].number;
        }
        i += 1;
    }
    assert(rs.len() == rows@.len());
    revision.number == most
}

/// Whether a revision is the live content of its file: both could be read, and they are the same.
pub fn is_synced(held: Option<&Vec<u8>>, live: Option<&Vec<u8>>) -> (r: bool)
    ensures
        r <==> (held matches Some(h) && (live matches Some(l) && h@ == l@)),
{
    match (held, live) {
        (Some(h), Some(l)) => same_bytes(h, l),
        _ => false,
    }
}

/// A text in the colours of a revision: dim if it is not the latest of its file; else green if it
/// is the live content, red if not, and bold.
pub open spec fn sync_painted(
    color: bool,
    rs: Seq<RevisionView>,
    r: RevisionView,
    synced: bool,
    text: Seq<char>,
) -> Seq<char> {
    if !color {
        text
    } else if !is_latest(rs, r) {
        painted(true, "2"@, text)
    } else {
        painted(
            true,
            "1"@,
            painted(
                true,
                if synced {
                    "32"@
                } else {
                    "31"@
                },
                text,
            ),
        )
    }
}

/// A text in the colours of a revision. `synced` says whether it is the live content; it matters
/// only for the latest revision of a file, in colours.
pub fn paint_sync(
    out: &Output,
    rows: &Vec<Revision>,
    revision: &Revision,
    synced: bool,
    text: String,
) -> (r: String)
    ensures
        r@ == sync_painted(out.color, all_views(rows@), revision@, synced, text@),
{
    if !out.color {
        return text;
    }
    if !latest_of_file(rows, revision) {
        return out.paint("2", text.as_str());
    }
    let code: &str = if synced {
        "32"
    } else {
        "31"
    };
    let colored: String = out.paint(code, text.as_str());
    out.paint("1", colored.as_str())
}

/// Whether a listing shows the time of an epoch: zero stands for none.
pub fn has_stamp(epoch: u64) -> (r: bool)
    ensures
        r == (epoch != 0),
{
    epoch != 0
}

/// The form in which `date` shows a time: with the hour in this year, with the year otherwise.
pub fn stamp_format(year: &str, then_year: &str) -> (r: &'static str)
    ensures
        r@ == if year@ == then_year@ {
            "+%b %e %H:%M"@
        } else {
            "+%b %e  %Y"@
        },
{
    if same(year, then_year) {
        "+%b %e %H:%M"
    } else {
        "+%b %e  %Y"
    }
}

/// Whether a file is another than the local one.
pub open spec fn is_other(local: Option<Seq<char>>, path: Seq<char>) -> bool {
    local matches Some(p) && !same_path_text(path, p)
}

fn other_than(local: Option<&str>, path: &str) -> (r: bool)
    ensures
        r == is_other(opt_str(local), path@),
{
    match local {
        Some(p) => !same_path(path, p),
        None => false,
    }
}

/// The order of a history: the local file first, then the newest first, by path, and the greater
/// number first.
pub open spec fn history_order(r: RevisionView, local: Option<Seq<char>>) -> Seq<u64> {
    seq![
        if is_other(local, r.access.path) {
            1u64
        } else {
            0u64
        },
        (u64::MAX - r.access.epoch) as u64,
    ] + path_key(r.access.path) + seq![(u64::MAX - r.number) as u64]
}

/// The keys of a history.
pub open spec fn history_orders(rs: Seq<RevisionView>, local: Option<Seq<char>>) -> Seq<Seq<u64>> {
    rs.map(|i: int, r: RevisionView| history_order(r, local))
}

/// The revisions of a history, in order.
pub open spec fn history_listed(rs: Seq<RevisionView>, local: Option<Seq<char>>) -> Seq<
    RevisionView,
> {
    sorted_by_key(rs, history_orders(rs, local))
}

/// The file that a history is about first: what was asked for, if that is not a whole path.
pub open spec fn local_file(query: Option<Seq<char>>, full: Option<Seq<char>>) -> Option<Seq<char>> {
    match query {
        Some(q) => if is_rooted(q) {
            None
        } else {
            full
        },
        None => None,
    }
}

/// The revisions that a history lists. `full` is the path of what was asked for, in its real
/// directory, if that is known.
pub open spec fn history_meant(
    rs: Seq<RevisionView>,
    query: Option<Seq<char>>,
    full: Option<Seq<char>>,
) -> Seq<RevisionView> {
    let wanted = match query {
        Some(q) => meant_by(
            rs,
            q,
            match full {
                Some(f) => f,
                None => Seq::empty(),
            },
        ),
        None => rs,
    };
    history_listed(wanted, local_file(query, full))
}

/// Whether a revision stands in a history no later than another: those of the local file first,
/// then the newest, by path, and the greater number first.
pub open spec fn stands_before(a: RevisionView, b: RevisionView, local: Option<Seq<char>>) -> bool {
    let (p, q) = (is_other(local, a.access.path), is_other(local, b.access.path));
    ||| !p && q
    ||| p == q && a.access.epoch > b.access.epoch
    ||| p == q && a.access.epoch == b.access.epoch && path_less(a.access.path, b.access.path)
    ||| p == q && a.access.epoch == b.access.epoch && same_path_text(a.access.path, b.access.path)
        && a.number >= b.number
}

proof fn lemma_history_order(a: RevisionView, b: RevisionView, local: Option<Seq<char>>)
    requires
        key_at_most(history_order(a, local), history_order(b, local)),
    ensures
        stands_before(a, b, local),
{
    let head = |r: RevisionView|
        seq![
            if is_other(local, r.access.path) {
                1u64
            } else {
                0u64
            },
            (u64::MAX - r.access.epoch) as u64,
        ];
    let (f, g) = (head(a), head(b));
    let (p, q) = (path_key(a.access.path), path_key(b.access.path));
    let (x, y) = (seq![(u64::MAX - a.number) as u64], seq![(u64::MAX - b.number) as u64]);
    assert(history_order(a, local) =~= f + (p + x));
    assert(history_order(b, local) =~= g + (q + y));
    assert(f.subrange(0, 2) =~= f);
    assert(g.subrange(0, 2) =~= g);
    lemma_joined_keys(f, g, p + x, q + y);
    if key_less(f, g) {
        let k = choose|k: int| smaller_at(f, g, k);
        assert(k == 0 || k == 1);
        assert(f[0] <= g[0]);
    } else {
        assert(f[0] == g[0] && f[1] == g[1]);
        if key_begins(p, q) {
            law_path_keys_are_separate(a.access.path, b.access.path);
        }
        if key_begins(q, p) {
            law_path_keys_are_separate(b.access.path, a.access.path);
        }
        lemma_joined_keys(p, q, x, y);
        law_path_keys_order_paths(a.access.path, b.access.path);
        law_path_keys_are_faithful(a.access.path, b.access.path);
        if p == q {
            if key_less(x, y) {
                let k = choose|k: int| smaller_at(x, y, k);
                assert(k == 0);
            }
            assert(x[0] <= y[0]);
        }
    }
}

/// A history shows each of its revisions once: the local file first, the newest first, the files
/// of one time by path, and the greater number first.
pub proof fn law_history_is_ordered(rs: Seq<RevisionView>, local: Option<Seq<char>>)
    ensures
        history_listed(rs, local).to_multiset() == rs.to_multiset(),
        forall|i: int, j: int|
            0 <= i < j < history_listed(rs, local).len() ==> stands_before(
                #[trigger] history_listed(rs, local)[i],
                #[trigger] history_listed(rs, local)[j],
                local,
            ),
{
    let keys = history_orders(rs, local);
    law_sorting_keeps_items(rs, keys);
    law_stable_order(keys);
    let order = stable_order(keys);
    let sorted = history_listed(rs, local);
    assert forall|i: int, j: int| 0 <= i < j < sorted.len() implies stands_before(
        #[trigger] sorted[i],
        #[trigger] sorted[j],
        local,
    ) by {
        assert(comes_before(keys, order[i], order[j]));
        lemma_history_order(rs[order[i]], rs[order[j]], local);
    }
}

fn sort_history(rows: &Vec<Revision>, local: Option<&str>) -> (r: Vec<Revision>)
    ensures
        all_views(r@) == history_listed(all_views(rows@), opt_str(local)),
{
    let ghost rs = all_views(rows@);
    let mut keys: Vec<Vec<u64>> = Vec::new();
    let mut i: usize = 0;
    while i < rows.len()
        invariant
            i <= rows.len(),
            rs == all_views(rows@),
            keys@.len() == i,
            forall|j: int|
                0 <= j < i ==> (#[trigger] keys@[j])@ == history_order(rs[j], opt_str(local)),
        decreases rows.len() - i,
    {
        assert(rs[i as int] == rows@[i as int]@);
        let mut key: Vec<u64> = Vec::new();
        key.push(
            if other_than(local, rows[i].access.path.as_str()) {
                1
            } else {
                0
            },
        );
        key.push(u64::MAX - rows[i].access.epoch);
        let ghost head = key@;
        push_path_key(&mut key, rows[i].access.path.as_str());
        key.push(u64::MAX - rows[i].number);
        assert(key@ =~= history_order(rs[i as int], opt_str(local)));
        keys.push(key);
        i += 1;
    }
    let order: Vec<usize> = sort_order(&keys);
    assert(key_views(keys@) =~= history_orders(rs, opt_str(local)));
    arrange(rows, &order)
}

/// The revisions that a history lists. `full` is the path of what was asked for, in its real
/// directory; it is known where a whole path was asked for.
pub fn history_rows(rows: &Vec<Revision>, query: Option<&str>, full: Option<&str>) -> (r: Vec<
    Revision,
>)
    requires
        query matches Some(q) ==> is_rooted(q@) ==> full is Some,
    ensures
        all_views(r@) == history_meant(all_views(rows@), opt_str(query), opt_str(full)),
{
    match query {
        Some(q) => {
            let wanted: Vec<Revision> = match full {
                Some(f) => select_meant(rows, q, f),
                None => select_meant(rows, q, String::new().as_str()),
            };
            if is_absolute(q) {
                sort_history(&wanted, None)
            } else {
                sort_history(&wanted, full)
            }
        },
        None => sort_history(rows, None),
    }
}

/// How the file of a revision is shown in a history.
pub open spec fn shown_file(r: RevisionView, local: Option<Seq<char>>) -> Seq<char> {
    if is_other(local, r.access.path) {
        "other "@ + r.access.path
    } else {
        r.access.path
    }
}

/// How the files of revisions are shown in a history.
pub open spec fn shown_files(rs: Seq<RevisionView>, local: Option<Seq<char>>) -> Seq<Seq<char>> {
    rs.map(|i: int, r: RevisionView| shown_file(r, local))
}

/// The actors of revisions.
pub open spec fn actors(rs: Seq<RevisionView>) -> Seq<Seq<char>> {
    rs.map(|i: int, r: RevisionView| r.actor)
}

/// The text of a tag, or nothing.
pub open spec fn tag_or_nothing(r: RevisionView) -> Seq<char> {
    match r.tag {
        Some(t) => t,
        None => Seq::empty(),
    }
}

/// The tags of revisions.
pub open spec fn tags(rs: Seq<RevisionView>) -> Seq<Seq<char>> {
    rs.map(|i: int, r: RevisionView| tag_or_nothing(r))
}

/// The widths of the columns of a history.
pub struct HistoryWidths {
    pub file: usize,
    pub when: usize,
    pub user: usize,
    pub tag: usize,
}

/// The widths of the columns of a history.
pub open spec fn history_widths(
    rs: Seq<RevisionView>,
    local: Option<Seq<char>>,
    stamps: Seq<Seq<char>>,
) -> HistoryWidths {
    HistoryWidths {
        file: column_width(shown_files(rs, local), 4) as usize,
        when: column_width(stamps, 4) as usize,
        user: column_width(actors(rs), 4) as usize,
        tag: column_width(tags(rs), 3) as usize,
    }
}

/// The heading of a history.
pub open spec fn history_heading(color: bool, w: HistoryWidths) -> Seq<char> {
    labelled(color, padded_left("REV"@, ' ', 3)) + "  "@ + labelled(
        color,
        padded_right("FILE"@, w.file as int),
    ) + "  "@ + labelled(color, padded_right("WHEN"@, w.when as int)) + "  "@ + labelled(
        color,
        padded_right("EDITOR"@, 6),
    ) + "  "@ + labelled(color, padded_right("USER"@, w.user as int)) + "  "@ + labelled(
        color,
        padded_right("TAG"@, w.tag as int),
    ) + "\n"@
}

/// Whether the local file is among revisions.
pub open spec fn has_local(rs: Seq<RevisionView>, local: Option<Seq<char>>) -> bool {
    match local {
        Some(p) => has_file(rs, p),
        None => false,
    }
}

/// Whether a file is among revisions.
pub open spec fn has_file(rs: Seq<RevisionView>, path: Seq<char>) -> bool {
    exists|i: int| 0 <= i < rs.len() && #[trigger] same_path_text(rs[i].access.path, path)
}

/// Whether the revision at `n` is shown as one of the local file.
pub open spec fn is_primary(rs: Seq<RevisionView>, local: Option<Seq<char>>, n: int) -> bool {
    !begins_with(shown_file(rs[n], local), "other "@)
}

/// The line of a history for the revision at `n`, with a blank line before it where the other
/// files begin.
pub open spec fn history_line(
    color: bool,
    w: HistoryWidths,
    rs: Seq<RevisionView>,
    local: Option<Seq<char>>,
    stamps: Seq<Seq<char>>,
    synced: Seq<bool>,
    n: int,
) -> Seq<char> {
    let r = rs[n];
    (if !is_primary(rs, local, n) && (n == 0 || is_primary(rs, local, n - 1)) && has_local(
        rs,
        local,
    ) {
        "\n"@
    } else {
        Seq::empty()
    }) + sync_painted(color, rs, r, synced[n], padded_left(decimal(r.number as nat), ' ', 3)) + "  "@
        + sync_painted(
        color,
        rs,
        r,
        synced[n],
        padded_right(shown_file(r, local), w.file as int),
    ) + "  "@ + padded_right(stamps[n], w.when as int) + "  "@ + padded_right(
        first_four(r.access.editor),
        6,
    ) + "  "@ + padded_right(r.actor, w.user as int) + "  "@ + (if tag_or_nothing(r).len() == 0 {
        padded_right(tag_or_nothing(r), w.tag as int)
    } else {
        warned(color, padded_right(tag_or_nothing(r), w.tag as int))
    }) + "\n"@
}

/// The lines of a history for the first `n` revisions.
pub open spec fn history_lines(
    color: bool,
    w: HistoryWidths,
    rs: Seq<RevisionView>,
    local: Option<Seq<char>>,
    stamps: Seq<Seq<char>>,
    synced: Seq<bool>,
    n: int,
) -> Seq<char>
    decreases n,
{
    if n <= 0 {
        Seq::empty()
    } else {
        history_lines(color, w, rs, local, stamps, synced, n - 1) + history_line(
            color,
            w,
            rs,
            local,
            stamps,
            synced,
            n - 1,
        )
    }
}

/// The history of files.
pub open spec fn history_table(
    color: bool,
    rs: Seq<RevisionView>,
    local: Option<Seq<char>>,
    stamps: Seq<Seq<char>>,
    synced: Seq<bool>,
) -> Seq<char> {
    let w = history_widths(rs, local, stamps);
    history_heading(color, w) + history_lines(
        color,
        w,
        rs,
        local,
        stamps,
        synced,
        rs.len() as int,
    )
}

fn show_file(revision: &Revision, local: Option<&str>) -> (r: String)
    ensures
        r@ == shown_file(revision@, opt_str(local)),
{
    let path: &str = revision.access.path.as_str();
    if other_than(local, path) {
        let mut out: String = "other ".to_owned();
        out.append(path);
        out
    } else {
        path.to_owned()
    }
}

fn tag_text(revision: &Revision) -> (r: String)
    ensures
        r@ == tag_or_nothing(revision@),
{
    match &revision.tag {
        Some(t) => t.clone(),
        None => String::new(),
    }
}

fn measure_history(rows: &Vec<Revision>, local: Option<&str>, stamps: &Vec<String>) -> (r:
    HistoryWidths)
    ensures
        r == history_widths(all_views(rows@), opt_str(local), views(stamps@)),
{
    let ghost rs = all_views(rows@);
    let mut files: Vec<String> = Vec::new();
    let mut users: Vec<String> = Vec::new();
    let mut marks: Vec<String> = Vec::new();
    let mut i: usize = 0;
    while i < rows.len()
        invariant
            i <= rows.len(),
            rs == all_views(rows@),
            files@.len() == i,
            users@.len() == i,
            marks@.len() == i,
            forall|j: int|
                0 <= j < i ==> (#[trigger] files@[j])@ == shown_file(rs[j], opt_str(local)),
            forall|j: int| 0 <= j < i ==> (#[trigger] users@[j])@ == rs[j].actor,
            forall|j: int| 0 <= j < i ==> (#[trigger] marks@[j])@ == tag_or_nothing(rs[j]),
        decreases rows.len() - i,
    {
        assert(rs[i as int] == rows@[i as int]@);
        files.push(show_file(&rows[i], local));
        users.push(rows[i].actor.clone());
        marks.push(tag_text(&rows[i]));
        i += 1;
    }
    assert(views(files@) =~= shown_files(rs, opt_str(local)));
    assert(views(users@) =~= actors(rs));
    assert(views(marks@) =~= tags(rs));
    HistoryWidths {
        file: measure(&files, 4),
        when: measure(stamps, 4),
        user: measure(&users, 4),
        tag: measure(&marks, 3),
    }
}

fn find_local(rows: &Vec<Revision>, local: Option<&str>) -> (r: bool)
    ensures
        r == has_local(all_views(rows@), opt_str(local)),
{
    let ghost rs = all_views(rows@);
    match local {
        None => false,
        Some(p) => {
            let mut i: usize = 0;
            while i < rows.len()
                invariant
                    i <= rows.len(),
                    rs == all_views(rows@),
                    opt_str(local) == Some(p@),
                    forall|j: int|
                        0 <= j < i ==> !(#[trigger] same_path_text(rs[j].access.path, p@)),
                decreases rows.len() - i,
            {
                assert(rs[i as int] == rows@[i as int]@);
                if same_path(rows[i].access.path.as_str(), p) {
                    assert(rs.len() == rows@.len());
                    assert(same_path_text(rs[i as int].access.path, p@));
                    assert(has_file(rs, p@));
                    return true;
                }
                i += 1;
            }
            assert(rs.len() == rows@.len());
            false
        },
    }
}

/// The history of files: `rows` in order, with their times and whether each is the live content.
pub fn history_report(
    out: &Output,
    rows: &Vec<Revision>,
    local: Option<&str>,
    stamps: &Vec<String>,
    synced: &Vec<bool>,
) -> (r: String)
    requires
        stamps@.len() == rows@.len(),
        synced@.len() == rows@.len(),
    ensures
        r@ == history_table(
            out.color,
            all_views(rows@),
            opt_str(local),
            views(stamps@),
            synced@,
        ),
{
    let ghost rs = all_views(rows@);
    let ghost st = views(stamps@);
    let ghost lo = opt_str(local);
    let w: HistoryWidths = measure_history(rows, local, stamps);
    let mut text: String = out.label(pad_left("REV", ' ', 3).as_str());
    text.append("  ");
    text.append(out.label(pad_right("FILE", w.file).as_str()).as_str());
    text.append("  ");
    text.append(out.label(pad_right("WHEN", w.when).as_str()).as_str());
    text.append("  ");
    text.append(out.label(pad_right("EDITOR", 6).as_str()).as_str());
    text.append("  ");
    text.append(out.label(pad_right("USER", w.user).as_str()).as_str());
    text.append("  ");
    text.append(out.label(pad_right("TAG", w.tag).as_str()).as_str());
    text.append("\n");
    let local_shown: bool = find_local(rows, local);
    let mut body: String = String::new();
    let mut previous_primary: bool = true;
    let mut i: usize = 0;
    while i < rows.len()
        invariant
            i <= rows.len(),
            rs == all_views(rows@),
            st == views(stamps@),
            lo == opt_str(local),
            stamps@.len() == rows@.len(),
            synced@.len() == rows@.len(),
            local_shown == has_local(rs, lo),
            previous_primary == (i == 0 || is_primary(rs, lo, i - 1)),
            body@ == history_lines(out.color, w, rs, lo, st, synced@, i as int),
        decreases rows.len() - i,
    {
        assert(rs[i as int] == rows@[i as int]@);
        assert(st[i as int] == stamps@[i as int]@);
        let r: &Revision = &rows[i];
        let shown: String = show_file(r, local);
        let primary: bool = !starts_with(shown.as_str(), "other ");
        let mut line: String = if previous_primary && !primary && local_shown {
            "\n".to_owned()
        } else {
            String::new()
        };
        let number: String = pad_left(to_decimal(r.number).as_str(), ' ', 3);
        line.append(paint_sync(out, rows, r, synced[i], number).as_str());
        line.append("  ");
        let file: String = pad_right(shown.as_str(), w.file);
        line.append(paint_sync(out, rows, r, synced[i], file).as_str());
        line.append("  ");
        line.append(pad_right(stamps[i].as_str(), w.when).as_str());
        line.append("  ");
        line.append(pad_right(take_four(r.access.editor.as_str()).as_str(), 6).as_str());
        line.append("  ");
        line.append(pad_right(r.actor.as_str(), w.user).as_str());
        line.append("  ");
        let mark: String = tag_text(r);
        let padded: String = pad_right(mark.as_str(), w.tag);
        let column: String = if chars_of(mark.as_str()).len() == 0 {
            padded
        } else {
            out.warn(padded.as_str())
        };
        line.append(column.as_str());
        line.append("\n");
        assert(line@ == history_line(out.color, w, rs, lo, st, synced@, i as int));
        body.append(line.as_str());
        previous_primary = primary;
        i += 1;
    }
    text.append(body.as_str());
    assert(rs.len() == rows@.len());
    text
}

/// What a listing is about.
#[derive(Clone, Copy, Debug, PartialEq, Eq, Structural)]
pub enum Scope {
    /// Everything.
    All,
    /// The current directory.
    Here,
    /// What the first argument names.
    Named,
}

/// What the arguments of a listing name.
pub open spec fn scope_of(args: Seq<Seq<char>>) -> Scope {
    if args.len() > 1 {
        Scope::All
    } else if args.len() == 0 || args[0] == "."@ {
        Scope::Here
    } else if args[0] == "*"@ {
        Scope::All
    } else {
        Scope::Named
    }
}

/// What the arguments of a listing name.
pub fn listing_scope(args: &Vec<String>) -> (r: Scope)
    ensures
        r == scope_of(views(args@)),
{
    let ghost a = views(args@);
    assert(a.len() == args@.len());
    if args.len() > 1 {
        return Scope::All;
    }
    if args.len() == 0 {
        return Scope::Here;
    }
    assert(a[0] == args@[0]@);
    if same(args[0].as_str(), ".") {
        Scope::Here
    } else if same(args[0].as_str(), "*") {
        proof {
            reveal_strlit("*");
            reveal_strlit(".");
            assert("*"@[0] != "."@[0]);
        }
        Scope::All
    } else {
        Scope::Named
    }
}

/// A line of a listing.
#[derive(Debug, PartialEq, Eq)]
pub struct ListItem {
    pub path: String,
    pub display: String,
    pub rev: u64,
    pub kind: String,
    pub epoch: u64,
    /// The time as it is shown; empty until it is filled in.
    pub stamp: String,
    pub editor: String,
    pub actor: String,
}

/// The model of a line of a listing.
pub struct ItemView {
    pub path: Seq<char>,
    pub display: Seq<char>,
    pub rev: u64,
    pub kind: Seq<char>,
    pub epoch: u64,
    pub stamp: Seq<char>,
    pub editor: Seq<char>,
    pub actor: Seq<char>,
}

impl View for ListItem {
    type V = ItemView;

    open spec fn view(&self) -> ItemView {
        ItemView {
            path: self.path@,
            display: self.display@,
            rev: self.rev,
            kind: self.kind@,
            epoch: self.epoch,
            stamp: self.stamp@,
            editor: self.editor@,
            actor: self.actor@,
        }
    }
}

impl Clone for ListItem {
    fn clone(&self) -> (r: Self)
        ensures
            r@ == self@,
    {
        ListItem {
            path: self.path.clone(),
            display: self.display.clone(),
            rev: self.rev,
            kind: self.kind.clone(),
            epoch: self.epoch,
            stamp: self.stamp.clone(),
            editor: self.editor.clone(),
            actor: self.actor.clone(),
        }
    }
}

impl Replicate for ListItem {
    fn replicate(&self) -> (r: Self) {
        self.clone()
    }
}

/// The first revision with a path and a number.
pub open spec fn place_of_row(rs: Seq<RevisionView>, path: Seq<char>, number: u64, from: int) -> Option<
    int,
>
    decreases rs.len() - from,
{
    if from < 0 || from >= rs.len() {
        None
    } else if same_path_text(rs[from].access.path, path) && rs[from].number == number {
        Some(from)
    } else {
        place_of_row(rs, path, number, from + 1)
    }
}

fn find_row(rows: &Vec<Revision>, path: &str, number: u64) -> (r: Option<usize>)
    ensures
        match r {
            Some(i) => i < rows@.len() && place_of_row(all_views(rows@), path@, number, 0) == Some(
                i as int,
            ),
            None => place_of_row(all_views(rows@), path@, number, 0) is None,
        },
{
    let ghost rs = all_views(rows@);
    let mut i: usize = 0;
    while i < rows.len()
        invariant
            i <= rows.len(),
            rs == all_views(rows@),
            place_of_row(rs, path@, number, 0) == place_of_row(rs, path@, number, i as int),
        decreases rows.len() - i,
    {
        assert(rs[i as int] == rows@[i as int]@);
        if same_path(rows[i].access.path.as_str(), path) && rows[i].number == number {
            return Some(i);
        }
        i += 1;
    }
    None
}

/// The actor that is recorded with a revision, or nothing.
pub open spec fn actor_recorded(r: Option<RevisionView>) -> Seq<char> {
    match r {
        Some(x) => x.actor,
        None => Seq::empty(),
    }
}

/// The actor that is recorded with a revision, or nothing.
pub fn recorded_actor(revision: Option<&Revision>) -> (r: String)
    ensures
        r@ == actor_recorded(
            match revision {
                Some(x) => Some(x@),
                None => None,
            },
        ),
{
    match revision {
        Some(x) => x.actor.clone(),
        None => String::new(),
    }
}

/// The path of an entry of the index.
pub open spec fn entry_path(e: IndexView) -> Seq<char> {
    joined_path(e.branch, e.leaf)
}

/// Whether a listing has an entry of the index: everything, the files of a directory, or a file.
pub open spec fn is_listed(e: IndexView, all: bool, scope: Seq<char>, directory: bool) -> bool {
    all || if directory {
        parent_of(entry_path(e)) matches Some(p) && same_path_text(p, scope)
    } else {
        same_path_text(entry_path(e), scope)
    }
}

/// The name of what an entry of the index leads to.
pub open spec fn kind_name(kind: char) -> Seq<char> {
    if kind == 'a' {
        "access"@
    } else if kind == 'b' {
        "backup"@
    } else {
        "diff"@
    }
}

/// The line of a listing for an entry of the index.
pub open spec fn item_of(e: IndexView, rs: Seq<RevisionView>, all: bool) -> ItemView {
    let path = entry_path(e);
    let row = match place_of_row(rs, path, e.revision, 0) {
        Some(i) => Some(rs[i]),
        None => None,
    };
    ItemView {
        path,
        display: if all {
            path
        } else {
            e.leaf
        },
        rev: e.revision,
        kind: kind_name(e.kind),
        epoch: match row {
            Some(r) => r.access.epoch,
            None => 0,
        },
        stamp: Seq::empty(),
        editor: match row {
            Some(r) => first_four(r.access.editor),
            None => Seq::empty(),
        },
        actor: actor_recorded(row),
    }
}

/// The lines of a listing for the first `n` entries of the index.
pub open spec fn items_part(
    es: Seq<IndexView>,
    n: int,
    rs: Seq<RevisionView>,
    all: bool,
    scope: Seq<char>,
    directory: bool,
) -> Seq<ItemView>
    decreases n,
{
    if n <= 0 {
        Seq::empty()
    } else if is_listed(es[n - 1], all, scope, directory) {
        items_part(es, n - 1, rs, all, scope, directory).push(item_of(es[n - 1], rs, all))
    } else {
        items_part(es, n - 1, rs, all, scope, directory)
    }
}

fn make_item(entry: &IndexEntry, path: String, rows: &Vec<Revision>, all: bool) -> (r: ListItem)
    requires
        path@ == entry_path(entry@),
    ensures
        r@ == item_of(entry@, all_views(rows@), all),
{
    let ghost rs = all_views(rows@);
    let row: Option<&Revision> = match find_row(rows, path.as_str(), entry.revision) {
        Some(i) => {
            assert(rs[i as int] == rows@[i as int]@);
            Some(&rows[i])
        },
        None => None,
    };
    let display: String = if all {
        path.clone()
    } else {
        entry.leaf.clone()
    };
    let kind: String = if entry.kind == 'a' {
        "access".to_owned()
    } else if entry.kind == 'b' {
        "backup".to_owned()
    } else {
        "diff".to_owned()
    };
    let (epoch, editor): (u64, String) = match row {
        Some(r) => (r.access.epoch, take_four(r.access.editor.as_str())),
        None => (0, String::new()),
    };
    let actor: String = recorded_actor(row);
    ListItem { path, display, rev: entry.revision, kind, epoch, stamp: String::new(), editor, actor }
}

/// The lines of a listing, in the order of the index. `scope` is what it is about, unless it is
/// about everything; `directory` says whether that is a directory.
pub fn list_items(
    entries: &Vec<IndexEntry>,
    rows: &Vec<Revision>,
    all: bool,
    scope: &str,
    directory: bool,
) -> (r: Vec<ListItem>)
    ensures
        all_views(r@) == items_part(
            all_views(entries@),
            entries@.len() as int,
            all_views(rows@),
            all,
            scope@,
            directory,
        ),
{
    let ghost es = all_views(entries@);
    let mut out: Vec<ListItem> = Vec::new();
    let mut i: usize = 0;
    assert(all_views(out@) =~= Seq::empty());
    while i < entries.len()
        invariant
            i <= entries.len(),
            es == all_views(entries@),
            all_views(out@) == items_part(es, i as int, all_views(rows@), all, scope@, directory),
        decreases entries.len() - i,
    {
        assert(es[i as int] == entries@[i as int]@);
        let path: String = join_path(entries[i].branch.as_str(), entries[i].leaf.as_str());
        let listed: bool = all || if directory {
            match parent(path.as_str()) {
                Some(p) => same_path(p.as_str(), scope),
                None => false,
            }
        } else {
            same_path(path.as_str(), scope)
        };
        if listed {
            let ghost before = all_views(out@);
            let item: ListItem = make_item(&entries[i], path, rows, all);
            out.push(item);
            assert(all_views(out@) =~= before.push(item@));
        }
        i += 1;
    }
    out
}

/// How a listing is ordered.
#[derive(Clone, Copy, Debug, PartialEq, Eq, Structural)]
pub enum ListOrder {
    /// By file.
    File,
    /// By user.
    User,
    /// The newest first, the lines of a file together.
    Group,
    /// The newest first.
    Time,
}

/// How a flag orders a listing.
pub open spec fn order_of(flag: Seq<char>) -> ListOrder {
    if flag == "-lsf"@ {
        ListOrder::File
    } else if flag == "-lsu"@ {
        ListOrder::User
    } else if flag == "-lsg"@ {
        ListOrder::Group
    } else {
        ListOrder::Time
    }
}

/// How a flag orders a listing.
pub fn list_order(flag: &str) -> (r: ListOrder)
    ensures
        r == order_of(flag@),
{
    if same(flag, "-lsf") {
        ListOrder::File
    } else if same(flag, "-lsu") {
        ListOrder::User
    } else if same(flag, "-lsg") {
        ListOrder::Group
    } else {
        ListOrder::Time
    }
}

/// The key of a line of a listing.
pub open spec fn item_key(i: ItemView, order: ListOrder) -> Seq<u64> {
    match order {
        ListOrder::File => text_key(i.display) + seq![(u64::MAX - i.rev) as u64] + text_key(i.kind),
        ListOrder::User => text_key(i.actor) + seq![(u64::MAX - i.epoch) as u64] + text_key(
            i.display,
        ),
        ListOrder::Group | ListOrder::Time => seq![(u64::MAX - i.epoch) as u64] + text_key(
            i.display,
        ) + text_key(i.kind),
    }
}

/// The keys of the lines of a listing.
pub open spec fn item_keys(items: Seq<ItemView>, order: ListOrder) -> Seq<Seq<u64>> {
    items.map(|j: int, i: ItemView| item_key(i, order))
}

/// The lines of a listing in order.
pub open spec fn items_ordered(items: Seq<ItemView>, order: ListOrder) -> Seq<ItemView> {
    sorted_by_key(items, item_keys(items, order))
}

/// The lines of a listing in order.
pub fn sort_items(items: &Vec<ListItem>, order: ListOrder) -> (r: Vec<ListItem>)
    ensures
        all_views(r@) == items_ordered(all_views(items@), order),
{
    let ghost v = all_views(items@);
    let mut keys: Vec<Vec<u64>> = Vec::new();
    let mut i: usize = 0;
    while i < items.len()
        invariant
            i <= items.len(),
            v == all_views(items@),
            keys@.len() == i,
            forall|j: int| 0 <= j < i ==> (#[trigger] keys@[j])@ == item_key(v[j], order),
        decreases items.len() - i,
    {
        assert(v[i as int] == items@[i as int]@);
        let item: &ListItem = &items[i];
        let mut key: Vec<u64> = Vec::new();
        match order {
            ListOrder::File => {
                push_text_key(&mut key, item.display.as_str());
                key.push(u64::MAX - item.rev);
                push_text_key(&mut key, item.kind.as_str());
            },
            ListOrder::User => {
                push_text_key(&mut key, item.actor.as_str());
                key.push(u64::MAX - item.epoch);
                push_text_key(&mut key, item.display.as_str());
            },
            ListOrder::Group | ListOrder::Time => {
                key.push(u64::MAX - item.epoch);
                push_text_key(&mut key, item.display.as_str());
                push_text_key(&mut key, item.kind.as_str());
            },
        }
        assert(key@ =~= item_key(v[i as int], order));
        keys.push(key);
        i += 1;
    }
    let sorted: Vec<usize> = sort_order(&keys);
    assert(key_views(keys@) =~= item_keys(v, order));
    arrange(items, &sorted)
}

/// A text in the colours of the revision that a line of a listing belongs to, if it is known.
pub open spec fn item_painted(
    color: bool,
    rs: Seq<RevisionView>,
    synced: Seq<bool>,
    i: ItemView,
    text: Seq<char>,
) -> Seq<char> {
    match place_of_row(rs, i.path, i.rev, 0) {
        Some(n) => sync_painted(color, rs, rs[n], synced[n], text),
        None => text,
    }
}

fn paint_item(
    out: &Output,
    rows: &Vec<Revision>,
    synced: &Vec<bool>,
    item: &ListItem,
    text: String,
) -> (r: String)
    requires
        synced@.len() == rows@.len(),
    ensures
        r@ == item_painted(out.color, all_views(rows@), synced@, item@, text@),
{
    match find_row(rows, item.path.as_str(), item.rev) {
        Some(n) => {
            assert(all_views(rows@)[n as int] == rows@[n as int]@);
            paint_sync(out, rows, &rows[n], synced[n], text)
        },
        None => text,
    }
}

/// The columns behind the kind of a line of a listing.
pub open spec fn item_tail(i: ItemView) -> Seq<char> {
    "  "@ + padded_right(i.stamp, 12) + "  "@ + padded_right(i.editor, 4) + "  "@
}

/// A line of a table.
pub open spec fn table_line(
    color: bool,
    rs: Seq<RevisionView>,
    synced: Seq<bool>,
    i: ItemView,
    file_width: nat,
    user_width: nat,
) -> Seq<char> {
    item_painted(color, rs, synced, i, padded_right(i.display, file_width as int)) + "  "@
        + item_painted(color, rs, synced, i, padded_left(decimal(i.rev as nat), ' ', 3)) + "  "@
        + item_painted(color, rs, synced, i, padded_right(i.kind, 7)) + item_tail(i)
        + padded_right(i.actor, user_width as int) + "\n"@
}

/// The first `n` lines of a table.
pub open spec fn table_lines(
    color: bool,
    rs: Seq<RevisionView>,
    synced: Seq<bool>,
    items: Seq<ItemView>,
    file_width: nat,
    user_width: nat,
    n: int,
) -> Seq<char>
    decreases n,
{
    if n <= 0 {
        Seq::empty()
    } else {
        table_lines(color, rs, synced, items, file_width, user_width, n - 1) + table_line(
            color,
            rs,
            synced,
            items[n - 1],
            file_width,
            user_width,
        )
    }
}

/// What is shown of the files of a listing.
pub open spec fn item_displays(items: Seq<ItemView>) -> Seq<Seq<char>> {
    items.map(|j: int, i: ItemView| i.display)
}

/// The actors of a listing.
pub open spec fn item_actors(items: Seq<ItemView>) -> Seq<Seq<char>> {
    items.map(|j: int, i: ItemView| i.actor)
}

/// The heading of a table.
pub open spec fn table_heading(color: bool, file_width: nat, user_width: nat) -> Seq<char> {
    labelled(color, padded_right("FILE"@, file_width as int)) + "  "@ + labelled(
        color,
        padded_left("REV"@, ' ', 3),
    ) + "  "@ + labelled(color, padded_right("TYPE"@, 7)) + "  "@ + labelled(
        color,
        padded_right("WHEN"@, 12),
    ) + "  "@ + labelled(color, padded_right("EDIT"@, 4)) + "  "@ + labelled(
        color,
        padded_right("USER"@, user_width as int),
    ) + "\n"@
}

/// A listing as one table.
pub open spec fn table_of(
    color: bool,
    rs: Seq<RevisionView>,
    synced: Seq<bool>,
    items: Seq<ItemView>,
) -> Seq<char> {
    let file_width = column_width(item_displays(items), 4);
    let user_width = column_width(item_actors(items), 4);
    table_heading(color, file_width, user_width) + table_lines(
        color,
        rs,
        synced,
        items,
        file_width,
        user_width,
        items.len() as int,
    )
}

fn push_tail(line: &mut String, item: &ListItem)
    ensures
        final(line)@ == old(line)@ + item_tail(item@),
{
    let mut tail: String = "  ".to_owned();
    tail.append(pad_right(item.stamp.as_str(), 12).as_str());
    tail.append("  ");
    tail.append(pad_right(item.editor.as_str(), 4).as_str());
    tail.append("  ");
    line.append(tail.as_str());
}

fn measure_items(items: &Vec<ListItem>) -> (r: (usize, usize))
    ensures
        r.0 == column_width(item_displays(all_views(items@)), 4),
        r.1 == column_width(item_actors(all_views(items@)), 4),
{
    let ghost v = all_views(items@);
    let mut displays: Vec<String> = Vec::new();
    let mut users: Vec<String> = Vec::new();
    let mut i: usize = 0;
    while i < items.len()
        invariant
            i <= items.len(),
            v == all_views(items@),
            displays@.len() == i,
            users@.len() == i,
            forall|j: int| 0 <= j < i ==> (#[trigger] displays@[j])@ == v[j].display,
            forall|j: int| 0 <= j < i ==> (#[trigger] users@[j])@ == v[j].actor,
        decreases items.len() - i,
    {
        assert(v[i as int] == items@[i as int]@);
        displays.push(items[i].display.clone());
        users.push(items[i].actor.clone());
        i += 1;
    }
    assert(views(displays@) =~= item_displays(v));
    assert(views(users@) =~= item_actors(v));
    (measure(&displays, 4), measure(&users, 4))
}

/// A listing as one table: `items` in order, and for each revision whether it is the live content.
pub fn table_report(
    out: &Output,
    rows: &Vec<Revision>,
    synced: &Vec<bool>,
    items: &Vec<ListItem>,
) -> (r: String)
    requires
        synced@.len() == rows@.len(),
    ensures
        r@ == table_of(out.color, all_views(rows@), synced@, all_views(items@)),
{
    let ghost rs = all_views(rows@);
    let ghost v = all_views(items@);
    let (file_width, user_width): (usize, usize) = measure_items(items);
    let mut text: String = out.label(pad_right("FILE", file_width).as_str());
    text.append("  ");
    text.append(out.label(pad_left("REV", ' ', 3).as_str()).as_str());
    text.append("  ");
    text.append(out.label(pad_right("TYPE", 7).as_str()).as_str());
    text.append("  ");
    text.append(out.label(pad_right("WHEN", 12).as_str()).as_str());
    text.append("  ");
    text.append(out.label(pad_right("EDIT", 4).as_str()).as_str());
    text.append("  ");
    text.append(out.label(pad_right("USER", user_width).as_str()).as_str());
    text.append("\n");
    let mut body: String = String::new();
    let mut i: usize = 0;
    while i < items.len()
        invariant
            i <= items.len(),
            rs == all_views(rows@),
            v == all_views(items@),
            synced@.len() == rows@.len(),
            body@ == table_lines(
                out.color,
                rs,
                synced@,
                v,
                file_width as nat,
                user_width as nat,
                i as int,
            ),
        decreases items.len() - i,
    {
        assert(v[i as int] == items@[i as int]@);
        let item: &ListItem = &items[i];
        let file: String = pad_right(item.display.as_str(), file_width);
        let mut line: String = paint_item(out, rows, synced, item, file);
        line.append("  ");
        let number: String = pad_left(to_decimal(item.rev).as_str(), ' ', 3);
        line.append(paint_item(out, rows, synced, item, number).as_str());
        line.append("  ");
        let kind: String = pad_right(item.kind.as_str(), 7);
        line.append(paint_item(out, rows, synced, item, kind).as_str());
        push_tail(&mut line, item);
        line.append(pad_right(item.actor.as_str(), user_width).as_str());
        line.append("\n");
        assert(line@ == table_line(
            out.color,
            rs,
            synced@,
            v[i as int],
            file_width as nat,
            user_width as nat,
        ));
        body.append(line.as_str());
        i += 1;
    }
    assert(v.len() == items@.len());
    text.append(body.as_str());
    text
}

/// The paths of a listing.
pub open spec fn item_paths(items: Seq<ItemView>) -> Seq<Seq<char>> {
    items.map(|j: int, i: ItemView| i.path)
}

/// The files of a listing, in order, each once.
pub open spec fn item_files(items: Seq<ItemView>) -> Seq<Seq<char>> {
    let paths = item_paths(items);
    let ordered = sorted_by_key(paths, path_keys(paths));
    once_each(ordered, ordered.len() as int)
}

/// The lines of one file among the first `n` of a listing.
pub open spec fn group_part(items: Seq<ItemView>, n: int, path: Seq<char>) -> Seq<ItemView>
    decreases n,
{
    if n <= 0 {
        Seq::empty()
    } else if same_path_text(items[n - 1].path, path) {
        group_part(items, n - 1, path).push(items[n - 1])
    } else {
        group_part(items, n - 1, path)
    }
}

/// The key of a line among those of its file: the greater number first.
pub open spec fn group_key(i: ItemView) -> Seq<u64> {
    seq![(u64::MAX - i.rev) as u64] + text_key(i.kind)
}

/// The keys of the lines of a file.
pub open spec fn group_keys(items: Seq<ItemView>) -> Seq<Seq<u64>> {
    items.map(|j: int, i: ItemView| group_key(i))
}

/// A line of a group.
pub open spec fn group_line(
    color: bool,
    rs: Seq<RevisionView>,
    synced: Seq<bool>,
    i: ItemView,
) -> Seq<char> {
    "  "@ + item_painted(color, rs, synced, i, padded_left(decimal(i.rev as nat), ' ', 3)) + "  "@
        + item_painted(color, rs, synced, i, padded_right(i.kind, 7)) + item_tail(i) + i.actor
        + "\n"@
}

/// The first `n` lines of a group.
pub open spec fn group_lines(
    color: bool,
    rs: Seq<RevisionView>,
    synced: Seq<bool>,
    items: Seq<ItemView>,
    n: int,
) -> Seq<char>
    decreases n,
{
    if n <= 0 {
        Seq::empty()
    } else {
        group_lines(color, rs, synced, items, n - 1) + group_line(color, rs, synced, items[n - 1])
    }
}

/// The group of a file: its name as the first of its lines shows it, its lines, and a blank line.
pub open spec fn group_of(
    color: bool,
    rs: Seq<RevisionView>,
    synced: Seq<bool>,
    items: Seq<ItemView>,
    path: Seq<char>,
) -> Seq<char> {
    let group = group_part(items, items.len() as int, path);
    let ordered = sorted_by_key(group, group_keys(group));
    labelled(color, "FILE:"@) + " "@ + path_shown(color, group[0].display) + "\n"@ + group_lines(
        color,
        rs,
        synced,
        ordered,
        ordered.len() as int,
    ) + "\n"@
}

/// The groups of the first `n` files.
pub open spec fn groups_of(
    color: bool,
    rs: Seq<RevisionView>,
    synced: Seq<bool>,
    items: Seq<ItemView>,
    files: Seq<Seq<char>>,
    n: int,
) -> Seq<char>
    decreases n,
{
    if n <= 0 {
        Seq::empty()
    } else {
        groups_of(color, rs, synced, items, files, n - 1) + group_of(
            color,
            rs,
            synced,
            items,
            files[n - 1],
        )
    }
}

/// A listing as groups.
pub open spec fn grouped(
    color: bool,
    rs: Seq<RevisionView>,
    synced: Seq<bool>,
    items: Seq<ItemView>,
) -> Seq<char> {
    let files = item_files(items);
    groups_of(color, rs, synced, items, files, files.len() as int)
}

fn list_item_files(items: &Vec<ListItem>) -> (r: Vec<String>)
    ensures
        views(r@) == item_files(all_views(items@)),
{
    let ghost v = all_views(items@);
    let mut paths: Vec<String> = Vec::new();
    let mut i: usize = 0;
    while i < items.len()
        invariant
            i <= items.len(),
            v == all_views(items@),
            paths@.len() == i,
            forall|j: int| 0 <= j < i ==> (#[trigger] paths@[j])@ == v[j].path,
        decreases items.len() - i,
    {
        assert(v[i as int] == items@[i as int]@);
        paths.push(items[i].path.clone());
        i += 1;
    }
    assert(views(paths@) =~= item_paths(v));
    keep_once(&sort_paths(&paths))
}

fn select_group(items: &Vec<ListItem>, path: &str) -> (r: Vec<ListItem>)
    ensures
        all_views(r@) == group_part(all_views(items@), items@.len() as int, path@),
{
    let ghost v = all_views(items@);
    let mut out: Vec<ListItem> = Vec::new();
    let mut i: usize = 0;
    assert(all_views(out@) =~= Seq::empty());
    while i < items.len()
        invariant
            i <= items.len(),
            v == all_views(items@),
            all_views(out@) == group_part(v, i as int, path@),
        decreases items.len() - i,
    {
        assert(v[i as int] == items@[i as int]@);
        if same_path(items[i].path.as_str(), path) {
            let ghost before = all_views(out@);
            let item: ListItem = items[i].clone();
            out.push(item);
            assert(all_views(out@) =~= before.push(item@));
        }
        i += 1;
    }
    out
}

fn sort_group(items: &Vec<ListItem>) -> (r: Vec<ListItem>)
    ensures
        all_views(r@) == sorted_by_key(all_views(items@), group_keys(all_views(items@))),
{
    let ghost v = all_views(items@);
    let mut keys: Vec<Vec<u64>> = Vec::new();
    let mut i: usize = 0;
    while i < items.len()
        invariant
            i <= items.len(),
            v == all_views(items@),
            keys@.len() == i,
            forall|j: int| 0 <= j < i ==> (#[trigger] keys@[j])@ == group_key(v[j]),
        decreases items.len() - i,
    {
        assert(v[i as int] == items@[i as int]@);
        let mut key: Vec<u64> = Vec::new();
        key.push(u64::MAX - items[i].rev);
        push_text_key(&mut key, items[i].kind.as_str());
        assert(key@ =~= group_key(v[i as int]));
        keys.push(key);
        i += 1;
    }
    let order: Vec<usize> = sort_order(&keys);
    assert(key_views(keys@) =~= group_keys(v));
    arrange(items, &order)
}

proof fn lemma_group_is_not_empty(items: Seq<ItemView>, n: int, path: Seq<char>, i: int)
    requires
        0 <= i < n <= items.len(),
        same_path_text(items[i].path, path),
    ensures
        group_part(items, n, path).len() > 0,
    decreases n,
{
    if n - 1 > i {
        lemma_group_is_not_empty(items, n - 1, path, i);
    }
}

proof fn lemma_file_has_item(list: Seq<Seq<char>>, n: int, k: int)
    requires
        0 <= n <= list.len(),
        0 <= k < once_each(list, n).len(),
    ensures
        exists|i: int| 0 <= i < n && #[trigger] list[i] == once_each(list, n)[k],
    decreases n,
{
    let before = once_each(list, n - 1);
    if k < before.len() {
        lemma_file_has_item(list, n - 1, k);
        let i = choose|i: int| 0 <= i < n - 1 && #[trigger] list[i] == before[k];
        assert(list[i] == once_each(list, n)[k]);
    } else {
        assert(list[n - 1] == once_each(list, n)[k]);
    }
}

proof fn lemma_item_file(items: Seq<ItemView>, k: int)
    requires
        0 <= k < item_files(items).len(),
    ensures
        group_part(items, items.len() as int, item_files(items)[k]).len() > 0,
{
    let paths = item_paths(items);
    let keys = path_keys(paths);
    let ordered = sorted_by_key(paths, keys);
    lemma_file_has_item(ordered, ordered.len() as int, k);
    let i = choose|i: int| 0 <= i < ordered.len() && #[trigger] ordered[i] == item_files(items)[k];
    law_stable_order(keys);
    let order = stable_order(keys);
    let at = order[i];
    assert(0 <= at < paths.len());
    assert(ordered[i] == paths[at]);
    assert(items[at].path == item_files(items)[k]);
    lemma_group_is_not_empty(items, items.len() as int, item_files(items)[k], at);
}

fn describe_group(
    out: &Output,
    rows: &Vec<Revision>,
    synced: &Vec<bool>,
    items: &Vec<ListItem>,
    path: &str,
) -> (r: String)
    requires
        synced@.len() == rows@.len(),
        group_part(all_views(items@), items@.len() as int, path@).len() > 0,
    ensures
        r@ == group_of(out.color, all_views(rows@), synced@, all_views(items@), path@),
{
    let ghost rs = all_views(rows@);
    let group: Vec<ListItem> = select_group(items, path);
    let ghost g = all_views(group@);
    assert(g.len() == group@.len());
    assert(g[0] == group@[0]@);
    let mut text: String = out.label("FILE:");
    text.append(" ");
    text.append(out.path(group[0].display.as_str()).as_str());
    text.append("\n");
    let ordered: Vec<ListItem> = sort_group(&group);
    let ghost o = all_views(ordered@);
    let mut body: String = String::new();
    let mut i: usize = 0;
    while i < ordered.len()
        invariant
            i <= ordered.len(),
            rs == all_views(rows@),
            o == all_views(ordered@),
            synced@.len() == rows@.len(),
            body@ == group_lines(out.color, rs, synced@, o, i as int),
        decreases ordered.len() - i,
    {
        assert(o[i as int] == ordered@[i as int]@);
        let item: &ListItem = &ordered[i];
        let mut line: String = "  ".to_owned();
        let number: String = pad_left(to_decimal(item.rev).as_str(), ' ', 3);
        line.append(paint_item(out, rows, synced, item, number).as_str());
        line.append("  ");
        let kind: String = pad_right(item.kind.as_str(), 7);
        line.append(paint_item(out, rows, synced, item, kind).as_str());
        push_tail(&mut line, item);
        line.append(item.actor.as_str());
        line.append("\n");
        body.append(line.as_str());
        i += 1;
    }
    assert(o.len() == ordered@.len());
    assert(all_views(items@).len() == items@.len());
    text.append(body.as_str());
    text.append("\n");
    text
}

/// A listing as groups, one for each file: `items` in order, and for each revision whether it is
/// the live content.
pub fn group_report(
    out: &Output,
    rows: &Vec<Revision>,
    synced: &Vec<bool>,
    items: &Vec<ListItem>,
) -> (r: String)
    requires
        synced@.len() == rows@.len(),
    ensures
        r@ == grouped(out.color, all_views(rows@), synced@, all_views(items@)),
{
    let ghost rs = all_views(rows@);
    let ghost v = all_views(items@);
    let files: Vec<String> = list_item_files(items);
    let ghost f = views(files@);
    let mut text: String = String::new();
    let mut i: usize = 0;
    while i < files.len()
        invariant
            i <= files.len(),
            rs == all_views(rows@),
            v == all_views(items@),
            f == views(files@),
            f == item_files(v),
            synced@.len() == rows@.len(),
            text@ == groups_of(out.color, rs, synced@, v, f, i as int),
        decreases files.len() - i,
    {
        assert(f[i as int] == files@[i as int]@);
        assert(f.len() == files@.len() && v.len() == items@.len());
        proof {
            lemma_item_file(v, i as int);
        }
        text.append(describe_group(out, rows, synced, items, files[i].as_str()).as_str());
        i += 1;
    }
    assert(f.len() == files@.len());
    text
}

/// What a search looks for: in which file, if in one, and what text.
pub fn search_terms(args: &Vec<String>) -> (r: Result<(Option<String>, String), CliError>)
    ensures
        match r {
            Ok((file, needle)) => {
                &&& 1 <= args@.len() <= 2
                &&& needle@ == args@.last()@
                &&& needle@.len() > 0
                &&& opt_view(file) == if args@.len() == 2 {
                    Some(args@[0]@)
                } else {
                    None
                }
            },
            Err(e) => if 1 <= args@.len() <= 2 {
                args@.last()@.len() == 0 && e@ == raw(
                    "usage: bedit -s TERM\n       bedit -s FILE TERM\n"@,
                    2,
                )
            } else {
                e@ == raw(USAGE@, 2)
            },
        },
{
    if !(args.len() == 1 || args.len() == 2) {
        return Err(CliError::raw(USAGE, 2));
    }
    let needle: String = args[args.len() - 1].clone();
    if chars_of(needle.as_str()).len() == 0 {
        return Err(CliError::raw("usage: bedit -s TERM\n       bedit -s FILE TERM\n", 2));
    }
    let file: Option<String> = if args.len() == 2 {
        Some(args[0].clone())
    } else {
        None
    };
    Ok((file, needle))
}

/// The key of a revision in a search: by path, then by number.
pub open spec fn search_key(r: RevisionView) -> Seq<u64> {
    path_key(r.access.path) + seq![r.number]
}

/// The keys of revisions in a search.
pub open spec fn search_keys(rs: Seq<RevisionView>) -> Seq<Seq<u64>> {
    rs.map(|i: int, r: RevisionView| search_key(r))
}

/// The revisions that are searched, in order. `full` is the path of the file, in its real
/// directory.
pub open spec fn searched_rows(
    rs: Seq<RevisionView>,
    file: Option<(Seq<char>, Seq<char>)>,
) -> Seq<RevisionView> {
    let wanted = match file {
        Some((query, full)) => meant_by(rs, query, full),
        None => rs,
    };
    sorted_by_key(wanted, search_keys(wanted))
}

fn sort_searched(rows: &Vec<Revision>) -> (r: Vec<Revision>)
    ensures
        all_views(r@) == sorted_by_key(all_views(rows@), search_keys(all_views(rows@))),
{
    let ghost rs = all_views(rows@);
    let mut keys: Vec<Vec<u64>> = Vec::new();
    let mut i: usize = 0;
    while i < rows.len()
        invariant
            i <= rows.len(),
            rs == all_views(rows@),
            keys@.len() == i,
            forall|j: int| 0 <= j < i ==> (#[trigger] keys@[j])@ == search_key(rs[j]),
        decreases rows.len() - i,
    {
        assert(rs[i as int] == rows@[i as int]@);
        let mut key: Vec<u64> = Vec::new();
        push_path_key(&mut key, rows[i].access.path.as_str());
        key.push(rows[i].number);
        assert(key@ =~= search_key(rs[i as int]));
        keys.push(key);
        i += 1;
    }
    let order: Vec<usize> = sort_order(&keys);
    assert(key_views(keys@) =~= search_keys(rs));
    arrange(rows, &order)
}

/// The revisions that are searched, in order: those that `query` means, `full` being its path in
/// its real directory, or all.
pub fn search_rows(rows: &Vec<Revision>, query: Option<&str>, full: &str) -> (r: Vec<Revision>)
    ensures
        all_views(r@) == searched_rows(
            all_views(rows@),
            match query {
                Some(q) => Some((q@, full@)),
                None => None,
            },
        ),
{
    match query {
        Some(q) => sort_searched(&select_meant(rows, q, full)),
        None => sort_searched(rows),
    }
}

/// The texts of a revision.
pub struct RevisionTexts {
    pub backup: String,
    pub diff: Option<String>,
}

/// The model of the texts of a revision.
pub struct TextsView {
    pub backup: Seq<char>,
    pub diff: Option<Seq<char>>,
}

impl View for RevisionTexts {
    type V = TextsView;

    open spec fn view(&self) -> TextsView {
        TextsView { backup: self.backup@, diff: opt_view(self.diff) }
    }
}

/// A line in which a text was found, with its number.
pub open spec fn hit_line(color: bool, line: Seq<char>, number: nat, needle: Seq<char>) -> Seq<char> {
    "    "@ + number_shown(color, decimal(number)) + ": "@ + (if color {
        replaced(line, needle, painted(true, "32"@, needle))
    } else {
        line
    }) + "\n"@
}

/// The lines among the first `n` in which a text was found.
pub open spec fn hit_lines(color: bool, lines: Seq<Seq<char>>, n: int, needle: Seq<char>) -> Seq<char>
    decreases n,
{
    if n <= 0 {
        Seq::empty()
    } else if occurs(lines[n - 1], needle) {
        hit_lines(color, lines, n - 1, needle) + hit_line(color, lines[n - 1], n as nat, needle)
    } else {
        hit_lines(color, lines, n - 1, needle)
    }
}

/// Whether a text was found in one of the first `n` lines.
pub open spec fn is_hit(lines: Seq<Seq<char>>, n: int, needle: Seq<char>) -> bool
    decreases n,
{
    n > 0 && (occurs(lines[n - 1], needle) || is_hit(lines, n - 1, needle))
}

/// What is printed of one text of a revision.
pub open spec fn text_hits(
    color: bool,
    number: u64,
    kind: Seq<char>,
    text: Seq<char>,
    needle: Seq<char>,
) -> Option<Seq<char>> {
    let lines = pieces(text, "\n"@);
    if is_hit(lines, lines.len() as int, needle) {
        Some(
            "  "@ + labelled(color, "rev"@) + " "@ + number_shown(color, decimal(number as nat))
                + " "@ + labelled(color, kind + ":"@) + "\n"@ + hit_lines(
                color,
                lines,
                lines.len() as int,
                needle,
            ),
        )
    } else {
        None
    }
}

/// What is printed of a revision: of its backup, and of its diff.
pub open spec fn revision_hits(color: bool, r: RevisionView, t: TextsView, needle: Seq<char>) -> Option<
    Seq<char>,
> {
    let backup = text_hits(color, r.number, "backup"@, t.backup, needle);
    let diff = match t.diff {
        Some(d) => text_hits(color, r.number, "diff"@, d, needle),
        None => None,
    };
    match (backup, diff) {
        (Some(b), Some(d)) => Some(b + d),
        (Some(b), None) => Some(b),
        (None, d) => d,
    }
}

/// What is printed of the first `n` revisions, and the file that the last hit was in.
pub open spec fn hits_part(
    color: bool,
    rs: Seq<RevisionView>,
    ts: Seq<TextsView>,
    needle: Seq<char>,
    n: int,
) -> (Seq<char>, Option<Seq<char>>)
    decreases n,
{
    if n <= 0 {
        (Seq::empty(), None)
    } else {
        let (before, file) = hits_part(color, rs, ts, needle, n - 1);
        let path = rs[n - 1].access.path;
        let heading = labelled(color, "FILE:"@) + " "@ + path_shown(color, path) + "\n"@;
        match revision_hits(color, rs[n - 1], ts[n - 1], needle) {
            None => (before, file),
            Some(hits) => match file {
                None => (before + heading + hits, Some(path)),
                Some(p) => if same_path_text(p, path) {
                    (before + hits, file)
                } else {
                    (before + "\n"@ + heading + hits, Some(path))
                },
            },
        }
    }
}

/// What a search prints: each file with hits once, the hits of its revisions, and a blank line.
pub open spec fn search_found(
    color: bool,
    rs: Seq<RevisionView>,
    ts: Seq<TextsView>,
    needle: Seq<char>,
) -> Seq<char> {
    let (text, file) = hits_part(color, rs, ts, needle, rs.len() as int);
    match file {
        Some(_) => text + "\n"@,
        None => text,
    }
}

fn describe_text(out: &Output, number: u64, kind: &str, text: &str, needle: &str) -> (r: Option<
    String,
>)
    requires
        needle@.len() > 0,
    ensures
        opt_view(r) == text_hits(out.color, number, kind@, text@, needle@),
{
    proof {
        reveal_strlit("\n");
    }
    let lines: Vec<String> = split(text, "\n");
    let ghost l = pieces(text@, "\n"@);
    let mut body: String = String::new();
    let mut found: bool = false;
    let mut i: usize = 0;
    while i < lines.len()
        invariant
            i <= lines.len(),
            l == views(lines@),
            needle@.len() > 0,
            found == is_hit(l, i as int, needle@),
            body@ == hit_lines(out.color, l, i as int, needle@),
        decreases lines.len() - i,
    {
        assert(l[i as int] == lines@[i as int]@);
        let line: &str = lines[i].as_str();
        if contains(line, needle) {
            found = true;
            let mut hit: String = "    ".to_owned();
            hit.append(out.rev(to_decimal(i as u64 + 1).as_str()).as_str());
            hit.append(": ");
            if out.color {
                let mark: String = out.paint("32", needle);
                hit.append(replace(line, needle, mark.as_str()).as_str());
            } else {
                hit.append(line);
            }
            hit.append("\n");
            assert(hit@ == hit_line(out.color, l[i as int], (i + 1) as nat, needle@));
            body.append(hit.as_str());
        }
        i += 1;
    }
    assert(l.len() == lines@.len());
    if !found {
        return None;
    }
    let mut r: String = "  ".to_owned();
    r.append(out.label("rev").as_str());
    r.append(" ");
    r.append(out.rev(to_decimal(number).as_str()).as_str());
    r.append(" ");
    let mut name: String = kind.to_owned();
    name.append(":");
    r.append(out.label(name.as_str()).as_str());
    r.append("\n");
    r.append(body.as_str());
    Some(r)
}

fn describe_revision(out: &Output, revision: &Revision, texts: &RevisionTexts, needle: &str) -> (r:
    Option<String>)
    requires
        needle@.len() > 0,
    ensures
        opt_view(r) == revision_hits(out.color, revision@, texts@, needle@),
{
    let backup: Option<String> = describe_text(
        out,
        revision.number,
        "backup",
        texts.backup.as_str(),
        needle,
    );
    let diff: Option<String> = match &texts.diff {
        Some(d) => describe_text(out, revision.number, "diff", d.as_str(), needle),
        None => None,
    };
    match (backup, diff) {
        (Some(b), Some(d)) => {
            let mut both: String = b;
            both.append(d.as_str());
            Some(both)
        },
        (Some(b), None) => Some(b),
        (None, d) => d,
    }
}

/// What a search prints: `rows` in order, with the texts of each.
pub fn search_report(
    out: &Output,
    rows: &Vec<Revision>,
    texts: &Vec<RevisionTexts>,
    needle: &str,
) -> (r: String)
    requires
        needle@.len() > 0,
        texts@.len() == rows@.len(),
    ensures
        r@ == search_found(out.color, all_views(rows@), all_views(texts@), needle@),
{
    let ghost rs = all_views(rows@);
    let ghost ts = all_views(texts@);
    let mut text: String = String::new();
    let mut file: Option<String> = None;
    let mut i: usize = 0;
    while i < rows.len()
        invariant
            i <= rows.len(),
            needle@.len() > 0,
            texts@.len() == rows@.len(),
            rs == all_views(rows@),
            ts == all_views(texts@),
            (text@, opt_view(file)) == hits_part(out.color, rs, ts, needle@, i as int),
        decreases rows.len() - i,
    {
        assert(rs[i as int] == rows@[i as int]@);
        assert(ts[i as int] == texts@[i as int]@);
        match describe_revision(out, &rows[i], &texts[i], needle) {
            None => {},
            Some(hits) => {
                let path: &str = rows[i].access.path.as_str();
                let begins: bool = match &file {
                    Some(p) => !same_path(p.as_str(), path),
                    None => true,
                };
                if begins {
                    if file.is_some() {
                        text.append("\n");
                    }
                    let mut heading: String = out.label("FILE:");
                    heading.append(" ");
                    heading.append(out.path(path).as_str());
                    heading.append("\n");
                    text.append(heading.as_str());
                    file = Some(path.to_owned());
                }
                text.append(hits.as_str());
            },
        }
        i += 1;
    }
    assert(rs.len() == rows@.len());
    if file.is_some() {
        text.append("\n");
    }
    text
}

/// How revisions are compared.
pub const DIFF_USAGE: &'static str = "usage: bedit -d FILE REV\n       bedit -d FILE REV1 REV2\n";

/// Whether there are arguments to compare.
pub fn check_diff(args: &Vec<String>) -> (r: Result<(), CliError>)
    ensures
        match r {
            Ok(_) => 2 <= args@.len() <= 3,
            Err(e) => !(2 <= args@.len() <= 3) && e@ == raw(DIFF_USAGE@, 2),
        },
{
    if args.len() < 2 || args.len() > 3 {
        Err(CliError::raw(DIFF_USAGE, 2))
    } else {
        Ok(())
    }
}

/// The revision that an argument of a comparison names.
pub open spec fn compared_revision(arg: Seq<char>, rs: Seq<RevisionView>) -> Result<
    int,
    CliErrorView,
> {
    match parsed(arg, u64::MAX as nat) {
        None => Err(raw(DIFF_USAGE@, 2)),
        Some(n) => match place_of_number(rs, n as u64, 0) {
            Some(i) => Ok(i),
            None => Err(raw("Revision not found\n"@, 2)),
        },
    }
}

/// The revision that an argument of a comparison names.
pub fn choose_compared(arg: &str, selected: &Vec<Revision>) -> (r: Result<usize, CliError>)
    ensures
        chooses(r, compared_revision(arg@, all_views(selected@))),
{
    match parse_bounded(arg, u64::MAX) {
        None => Err(CliError::raw(DIFF_USAGE, 2)),
        Some(n) => match find_number(selected, n) {
            Some(i) => Ok(i),
            None => Err(CliError::raw("Revision not found\n", 2)),
        },
    }
}

/// The name of one side of a comparison: a revision of a file, or the live file.
pub open spec fn side_label(path: Seq<char>, number: Option<u64>) -> Seq<char> {
    match number {
        Some(n) => path + "@"@ + decimal(n as nat),
        None => path + "@live"@,
    }
}

fn label_side(path: &str, number: Option<u64>) -> (r: String)
    ensures
        r@ == side_label(path@, number),
{
    let mut out: String = path.to_owned();
    match number {
        Some(n) => {
            out.append("@");
            out.append(to_decimal(n).as_str());
        },
        None => {
            out.append("@live");
        },
    }
    out
}

/// The name of the file into which one side of a comparison is rendered.
pub fn comparison_file(side: &str, process: u64, leaf: &str) -> (r: String)
    ensures
        r@ == ".diff-"@ + side@ + "-"@ + decimal(process as nat) + "-"@ + leaf@,
{
    let mut out: String = ".diff-".to_owned();
    out.append(side);
    out.append("-");
    out.append(to_decimal(process).as_str());
    out.append("-");
    out.append(leaf);
    out
}

/// A diff with a first line that names the left side.
pub open spec fn left_named(left: Seq<char>, rest: Seq<char>) -> Seq<char> {
    "--- "@ + left + "\n"@ + rest
}

/// Where the right side is looked for in a diff whose left side was named: as many bytes in as the
/// first line had before, and its line end.
pub open spec fn right_from(first: Seq<char>) -> int {
    byte_len(first) as int + 1
}

/// Whether the right side can be looked for.
pub open spec fn can_be_named(text: Seq<char>, left: Seq<char>) -> bool {
    match cut_at(text, "\n"@) {
        Some((first, rest)) => is_char_boundary(
            encode_utf8(left_named(left, rest)),
            right_from(first),
        ),
        None => true,
    }
}

/// A text with the right side named in it: what follows the first `+++ `, up to the end of its
/// line.
pub open spec fn right_named(front: Seq<char>, back: Seq<char>, right: Seq<char>) -> Seq<char> {
    match first_occurrence(back, "+++ "@, 0) {
        None => front + back,
        Some(i) => match first_occurrence(back, "\n"@, i) {
            None => front + back,
            Some(j) => front + (back.subrange(0, i) + ("+++ "@ + right) + back.subrange(
                j,
                back.len() as int,
            )),
        },
    }
}

/// A diff that names its sides.
pub open spec fn sides_named(text: Seq<char>, left: Seq<char>, right: Seq<char>) -> Seq<char> {
    match cut_at(text, "\n"@) {
        None => text,
        Some((first, rest)) => {
            let bytes = encode_utf8(left_named(left, rest));
            let at = right_from(first);
            right_named(
                decode_utf8(bytes.subrange(0, at)),
                decode_utf8(bytes.subrange(at, bytes.len() as int)),
                right,
            )
        },
    }
}

fn name_left(left: &str, rest: &str) -> (r: String)
    ensures
        r@ == left_named(left@, rest@),
{
    let mut out: String = "--- ".to_owned();
    out.append(left);
    out.append("\n");
    out.append(rest);
    out
}

/// Whether the right side can be looked for in a diff.
pub fn sides_can_be_named(text: &str, left: &str) -> (r: bool)
    ensures
        r == can_be_named(text@, left@),
{
    proof {
        reveal_strlit("\n");
    }
    match split_once(text, "\n") {
        None => true,
        Some((first, rest)) => {
            let named: String = name_left(left, rest.as_str());
            let n: usize = count_bytes(first.as_str());
            proof {
                encode_utf8_valid_utf8(named@);
            }
            n < count_bytes(named.as_str()) && named.as_str().is_char_boundary(n + 1)
        },
    }
}

fn name_right(front: &str, back: &str, right: &str) -> (r: String)
    ensures
        r@ == right_named(front@, back@, right@),
{
    proof {
        reveal_strlit("+++ ");
        reveal_strlit("\n");
    }
    let x: Vec<char> = chars_of(back);
    let mut out: String = front.to_owned();
    match find_from(&x, &chars_of("+++ "), 0) {
        None => {
            out.append(back);
        },
        Some(i) => match find_from(&x, &chars_of("\n"), i) {
            None => {
                out.append(back);
            },
            Some(j) => {
                let mut line: String = text_of(&x, 0, i);
                let mut label: String = "+++ ".to_owned();
                label.append(right);
                line.append(label.as_str());
                line.append(text_of(&x, j, x.len()).as_str());
                out.append(line.as_str());
            },
        },
    }
    out
}

/// Names the sides of a diff.
pub fn name_sides(text: &str, left: &str, right: &str) -> (r: String)
    requires
        can_be_named(text@, left@),
    ensures
        r@ == sides_named(text@, left@, right@),
{
    proof {
        reveal_strlit("\n");
    }
    match split_once(text, "\n") {
        None => text.to_owned(),
        Some((first, rest)) => {
            let named: String = name_left(left, rest.as_str());
            let n: usize = count_bytes(first.as_str());
            let ghost bytes = encode_utf8(named@);
            let total: usize = count_bytes(named.as_str());
            assert(n < total) by {
                encode_utf8_valid_utf8(named@);
            }
            let (front, back): (&str, &str) = named.as_str().split_at(n + 1);
            proof {
                encode_utf8_decode_utf8(front@);
                encode_utf8_decode_utf8(back@);
            }
            name_right(front, back, right)
        },
    }
}

/// What a comparison prints: what `diff` wrote, with its sides named, in colours.
pub open spec fn comparison_text(
    color: bool,
    text: Seq<char>,
    path: Seq<char>,
    left: u64,
    right: Option<u64>,
) -> Seq<char> {
    painted_diff(color, sides_named(text, side_label(path, Some(left)), side_label(path, right)))
}

/// What a comparison of a revision with another, or with the live file, prints.
pub fn comparison_report(out: &Output, text: &str, path: &str, left: u64, right: Option<u64>) -> (r:
    String)
    requires
        can_be_named(text@, side_label(path@, Some(left))),
    ensures
        r@ == comparison_text(out.color, text@, path@, left, right),
{
    let left_label: String = label_side(path, Some(left));
    let right_label: String = label_side(path, right);
    out.diff(name_sides(text, left_label.as_str(), right_label.as_str()).as_str())
}

/// Whether `diff` could compare: it exits with more than one where it could not.
pub fn comparison_failed(code: Option<i32>) -> (r: bool)
    ensures
        r == (code matches Some(c) && c > 1),
{
    match code {
        Some(c) => c > 1,
        None => false,
    }
}

/// The row of a line in which a text was found.
pub open spec fn hit_row(color: bool, line: Seq<char>, number: nat, needle: Seq<char>) -> Seq<char> {
    "    "@ + number_shown(color, decimal(number)) + ": "@ + (if color {
        replaced(line, needle, painted(true, "32"@, needle))
    } else {
        line
    })
}

/// The report on a text has, below its heading, a row for every line that holds what was searched
/// for, with the number of the line and, where there are no colours, the line as it is. There are
/// as many rows as there are such lines, in their order. A text without such a line is not
/// reported. The places of the lines are handed back.
pub proof fn law_every_matching_line_is_reported(
    color: bool,
    number: u64,
    kind: Seq<char>,
    text: Seq<char>,
    needle: Seq<char>,
) -> (places: Seq<int>)
    requires
        needle.len() > 0,
        one_line(kind),
    ensures
        ({
            let lines = pieces(text, "\n"@);
            &&& forall|i: int, j: int| 0 <= i < j < places.len() ==> places[i] < places[j]
            &&& forall|i: int|
                0 <= i < places.len() ==> 0 <= #[trigger] places[i] < lines.len() && occurs(
                    lines[places[i]],
                    needle,
                )
            &&& forall|k: int|
                0 <= k < lines.len() && occurs(#[trigger] lines[k], needle) ==> places.contains(k)
            &&& match text_hits(color, number, kind, text, needle) {
                None => places.len() == 0,
                Some(report) => places.len() > 0 && pieces(report, "\n"@) == seq![
                    "  "@ + labelled(color, "rev"@) + " "@ + number_shown(
                        color,
                        decimal(number as nat),
                    ) + " "@ + labelled(color, kind + ":"@),
                ] + Seq::new(
                    places.len(),
                    |i: int|
                        hit_row(color, lines[places[i]], (places[i] + 1) as nat, needle),
                ) + seq![Seq::<char>::empty()],
            }
            &&& !color ==> forall|i: int|
                0 <= i < places.len() ==> hit_row(
                    color,
                    lines[#[trigger] places[i]],
                    (places[i] + 1) as nat,
                    needle,
                ) == "    "@ + decimal((places[i] + 1) as nat) + ": "@ + lines[places[i]]
        }),
{
    broadcast use lemma_one_line;

    reveal_strlit("\n");
    let lines = pieces(text, "\n"@);
    let n = lines.len() as int;
    law_joining_undoes_splitting(text, "\n"@);
    let places = lemma_hit_places(lines, n, needle);
    let rows = Seq::new(
        places.len(),
        |i: int| hit_row(color, lines[places[i]], (places[i] + 1) as nat, needle),
    );
    lemma_hit_lines_joined(color, lines, n, needle, places);
    lemma_is_hit(lines, n, needle);
    if is_hit(lines, n, needle) {
        let k = choose|k: int| 0 <= k < n && occurs(#[trigger] lines[k], needle);
        assert(places.contains(k));
        let head = "  "@ + labelled(color, "rev"@) + " "@ + number_shown(
            color,
            decimal(number as nat),
        ) + " "@ + labelled(color, kind + ":"@);
        let report = text_hits(color, number, kind, text, needle)->0;
        let all = seq![head] + rows + seq![Seq::<char>::empty()];
        lemma_report_joined(head, rows, hit_lines(color, lines, n, needle));
        assert(report =~= head + "\n"@ + hit_lines(color, lines, n, needle));
        assert(report == joined(all, "\n"@));
        assert forall|i: int| 0 <= i < all.len() implies one_line(#[trigger] all[i]) by {
            if i == 0 {
                lemma_head_is_one_line(color, number, kind);
            } else if i <= rows.len() {
                let at = places[i - 1];
                assert(all[i] == rows[i - 1]);
                lemma_piece_is_one_line(lines[at]);
                lemma_row_is_one_line(color, lines[at], (at + 1) as nat, needle);
            }
        }
        law_splitting_undoes_joining(all);
    } else {
        if places.len() > 0 {
            assert(occurs(lines[places[0]], needle));
        }
    }
    assert forall|i: int| 0 <= i < places.len() && !color implies hit_row(
        color,
        lines[#[trigger] places[i]],
        (places[i] + 1) as nat,
        needle,
    ) == "    "@ + decimal((places[i] + 1) as nat) + ": "@ + lines[places[i]] by {}
    places
}

proof fn lemma_piece_is_one_line(line: Seq<char>)
    requires
        !occurs(line, "\n"@),
    ensures
        one_line(line),
{
    reveal_strlit("\n");
    assert forall|k: int| 0 <= k < line.len() implies #[trigger] line[k] != '\n' by {
        if line[k] == '\n' {
            assert(line.subrange(k, k + 1) =~= "\n"@);
            assert(occurs_at(line, "\n"@, k));
        }
    }
}

proof fn lemma_painted_is_one_line(color: bool, code: Seq<char>, text: Seq<char>)
    requires
        one_line(code),
        one_line(text),
    ensures
        one_line(painted(color, code, text)),
{
    broadcast use lemma_one_line;

    reveal_strlit("\x1b[");
    reveal_strlit("m");
    reveal_strlit("\x1b[0m");
    assert(one_line("\x1b["@) && one_line("m"@) && one_line("\x1b[0m"@));
}

proof fn lemma_head_is_one_line(color: bool, number: u64, kind: Seq<char>)
    requires
        one_line(kind),
    ensures
        one_line(
            "  "@ + labelled(color, "rev"@) + " "@ + number_shown(color, decimal(number as nat))
                + " "@ + labelled(color, kind + ":"@),
        ),
{
    broadcast use lemma_one_line;

    reveal_strlit("  ");
    reveal_strlit("rev");
    reveal_strlit(" ");
    reveal_strlit(":");
    reveal_strlit("38;5;33");
    reveal_strlit("35");
    lemma_decimal(number as nat);
    assert(one_line("  "@) && one_line("rev"@) && one_line(" "@) && one_line(":"@) && one_line(
        "38;5;33"@,
    ) && one_line("35"@) && one_line(decimal(number as nat)));
    lemma_painted_is_one_line(color, "38;5;33"@, "rev"@);
    lemma_painted_is_one_line(color, "35"@, decimal(number as nat));
    lemma_painted_is_one_line(color, "38;5;33"@, kind + ":"@);
}

proof fn lemma_joined_is_one_line(list: Seq<Seq<char>>, sep: Seq<char>)
    requires
        one_line(sep),
        forall|i: int| 0 <= i < list.len() ==> one_line(#[trigger] list[i]),
    ensures
        one_line(joined(list, sep)),
    decreases list.len(),
{
    broadcast use lemma_one_line;

    if list.len() > 1 {
        lemma_joined_is_one_line(list.drop_last(), sep);
        assert(one_line(list.last()));
    } else if list.len() == 1 {
        assert(one_line(list[0]));
    }
}

proof fn lemma_part_is_one_line(s: Seq<char>, p: Seq<char>)
    requires
        one_line(s),
        occurs(s, p),
    ensures
        one_line(p),
{
    let i = choose|i: int| occurs_at(s, p, i);
    assert forall|k: int| 0 <= k < p.len() implies #[trigger] p[k] != '\n' by {
        assert(s.subrange(i, i + p.len())[k] == s[i + k]);
    }
}

proof fn lemma_row_is_one_line(color: bool, line: Seq<char>, number: nat, needle: Seq<char>)
    requires
        one_line(line),
        needle.len() > 0,
        occurs(line, needle),
    ensures
        one_line(hit_row(color, line, number, needle)),
{
    broadcast use lemma_one_line;

    reveal_strlit("    ");
    reveal_strlit(": ");
    reveal_strlit("35");
    reveal_strlit("32");
    lemma_decimal(number);
    assert(one_line("    "@) && one_line(": "@) && one_line("35"@) && one_line("32"@) && one_line(
        decimal(number),
    ));
    lemma_painted_is_one_line(color, "35"@, decimal(number));
    if color {
        lemma_part_is_one_line(line, needle);
        lemma_painted_is_one_line(true, "32"@, needle);
        law_joining_undoes_splitting(line, needle);
        let parts = pieces(line, needle);
        assert forall|i: int| 0 <= i < parts.len() implies one_line(#[trigger] parts[i]) by {
            lemma_joined_occurs(parts, needle, i);
            lemma_part_is_one_line(line, parts[i]);
        }
        lemma_joined_is_one_line(parts, painted(true, "32"@, needle));
    }
}

proof fn lemma_is_hit(lines: Seq<Seq<char>>, n: int, needle: Seq<char>)
    requires
        0 <= n <= lines.len(),
    ensures
        is_hit(lines, n, needle) <==> exists|k: int|
            0 <= k < n && occurs(#[trigger] lines[k], needle),
    decreases n,
{
    if n > 0 {
        lemma_is_hit(lines, n - 1, needle);
        if occurs(lines[n - 1], needle) {
            let k = n - 1;
            assert(occurs(lines[k], needle));
        }
    }
}

proof fn lemma_hit_places(lines: Seq<Seq<char>>, n: int, needle: Seq<char>) -> (places: Seq<int>)
    requires
        0 <= n <= lines.len(),
    ensures
        places == hit_places(lines, n, needle),
        forall|i: int, j: int| 0 <= i < j < places.len() ==> places[i] < places[j],
        forall|i: int|
            0 <= i < places.len() ==> 0 <= #[trigger] places[i] < n && occurs(
                lines[places[i]],
                needle,
            ),
        forall|k: int| 0 <= k < n && occurs(#[trigger] lines[k], needle) ==> places.contains(k),
    decreases n,
{
    if n <= 0 {
        Seq::empty()
    } else {
        let before = lemma_hit_places(lines, n - 1, needle);
        if occurs(lines[n - 1], needle) {
            let places = before.push(n - 1);
            assert forall|k: int| 0 <= k < n && occurs(
                #[trigger] lines[k],
                needle,
            ) implies places.contains(k) by {
                if k < n - 1 {
                    assert(before.contains(k));
                    let i = choose|i: int| 0 <= i < before.len() && before[i] == k;
                    assert(places[i] == k);
                } else {
                    assert(places[before.len() as int] == k);
                }
            }
            places
        } else {
            before
        }
    }
}

/// The places of the lines among the first `n` that hold a text.
spec fn hit_places(lines: Seq<Seq<char>>, n: int, needle: Seq<char>) -> Seq<int>
    decreases n,
{
    if n <= 0 {
        Seq::empty()
    } else if occurs(lines[n - 1], needle) {
        hit_places(lines, n - 1, needle).push(n - 1)
    } else {
        hit_places(lines, n - 1, needle)
    }
}

/// Rows, each with a line feed behind it.
spec fn rows_text(rows: Seq<Seq<char>>) -> Seq<char>
    decreases rows.len(),
{
    if rows.len() == 0 {
        Seq::empty()
    } else {
        rows_text(rows.drop_last()) + rows.last() + "\n"@
    }
}

proof fn lemma_hit_lines_joined(
    color: bool,
    lines: Seq<Seq<char>>,
    n: int,
    needle: Seq<char>,
    places: Seq<int>,
)
    requires
        0 <= n <= lines.len(),
        places == hit_places(lines, n, needle),
    ensures
        hit_lines(color, lines, n, needle) == rows_text(
            Seq::new(
                places.len(),
                |i: int| hit_row(color, lines[places[i]], (places[i] + 1) as nat, needle),
            ),
        ),
    decreases n,
{
    let rows = Seq::new(
        places.len(),
        |i: int| hit_row(color, lines[places[i]], (places[i] + 1) as nat, needle),
    );
    if n > 0 {
        let before = hit_places(lines, n - 1, needle);
        lemma_hit_lines_joined(color, lines, n - 1, needle, before);
        let earlier = Seq::new(
            before.len(),
            |i: int| hit_row(color, lines[before[i]], (before[i] + 1) as nat, needle),
        );
        if occurs(lines[n - 1], needle) {
            assert(rows.drop_last() =~= earlier);
            assert(rows.last() == hit_row(color, lines[n - 1], n as nat, needle));
            assert(hit_lines(color, lines, n, needle) =~= rows_text(earlier) + rows.last() + "\n"@);
        } else {
            assert(rows =~= earlier);
        }
    } else {
        assert(rows.len() == 0);
    }
}

proof fn lemma_report_joined(head: Seq<char>, rows: Seq<Seq<char>>, text: Seq<char>)
    requires
        text == rows_text(rows),
    ensures
        head + "\n"@ + text == joined(seq![head] + rows + seq![Seq::<char>::empty()], "\n"@),
    decreases rows.len(),
{
    let all = seq![head] + rows + seq![Seq::<char>::empty()];
    assert(all.drop_last() =~= seq![head] + rows);
    if rows.len() == 0 {
        assert(all.drop_last() =~= seq![head]);
        assert(joined(seq![head], "\n"@) == head);
        assert(all.last() =~= Seq::<char>::empty() && text =~= Seq::<char>::empty());
        assert(joined(all, "\n"@) == head + "\n"@ + text);
    } else {
        let before = rows.drop_last();
        lemma_report_joined(head, before, rows_text(before));
        let fewer = seq![head] + before + seq![Seq::<char>::empty()];
        assert(fewer.drop_last() =~= seq![head] + before);
        assert((seq![head] + rows).drop_last() =~= seq![head] + before);
        assert((seq![head] + rows).last() == rows.last());
        assert(joined(fewer, "\n"@) =~= joined(seq![head] + before, "\n"@) + "\n"@);
        assert(head + "\n"@ + rows_text(before) =~= joined(seq![head] + before, "\n"@) + "\n"@);
        assert(joined(all, "\n"@) =~= joined(seq![head] + rows, "\n"@) + "\n"@
            + Seq::<char>::empty());
        assert(joined(seq![head] + rows, "\n"@) == joined(seq![head] + before, "\n"@) + "\n"@
            + rows.last());
        assert(joined(all, "\n"@) =~= head + "\n"@ + text);
    }
}

/// Of a revision the backup is searched, and then the diff where it has one; what is found in
/// either is reported.
pub proof fn law_backup_and_diff_are_searched(
    color: bool,
    r: RevisionView,
    t: TextsView,
    needle: Seq<char>,
)
    ensures
        ({
            let backup = text_hits(color, r.number, "backup"@, t.backup, needle);
            let diff = match t.diff {
                Some(d) => text_hits(color, r.number, "diff"@, d, needle),
                None => None,
            };
            &&& revision_hits(color, r, t, needle) is None <==> backup is None && diff is None
            &&& revision_hits(color, r, t, needle) matches Some(hits) ==> hits == (match backup {
                Some(b) => b,
                None => Seq::empty(),
            }) + (match diff {
                Some(d) => d,
                None => Seq::empty(),
            })
        }),
{
    match revision_hits(color, r, t, needle) {
        Some(hits) => {
            assert(hits + Seq::<char>::empty() =~= hits);
            assert(Seq::<char>::empty() + hits =~= hits);
        },
        None => {},
    }
}

proof fn lemma_hits_grow(
    color: bool,
    rs: Seq<RevisionView>,
    ts: Seq<TextsView>,
    needle: Seq<char>,
    n: int,
    m: int,
)
    requires
        0 <= n <= m,
    ensures
        begins_with(
            hits_part(color, rs, ts, needle, m).0,
            hits_part(color, rs, ts, needle, n).0,
        ),
        hits_part(color, rs, ts, needle, n).1 is Some ==> hits_part(color, rs, ts, needle, m).1 is Some,
    decreases m,
{
    let x = hits_part(color, rs, ts, needle, n).0;
    if n == m {
        assert(x.subrange(0, x.len() as int) =~= x);
    } else {
        lemma_hits_grow(color, rs, ts, needle, n, m - 1);
        let y = hits_part(color, rs, ts, needle, m - 1).0;
        let heading = labelled(color, "FILE:"@) + " "@ + path_shown(
            color,
            rs[m - 1].access.path,
        ) + "\n"@;
        match revision_hits(color, rs[m - 1], ts[m - 1], needle) {
            Some(hits) => {
                lemma_still_begins(x, y, heading);
                lemma_still_begins(x, y + heading, hits);
                lemma_still_begins(x, y, hits);
                lemma_still_begins(x, y, "\n"@);
                lemma_still_begins(x, y + "\n"@, heading);
                lemma_still_begins(x, y + "\n"@ + heading, hits);
            },
            None => {},
        }
    }
}

proof fn lemma_still_begins(x: Seq<char>, y: Seq<char>, z: Seq<char>)
    requires
        begins_with(y, x),
    ensures
        begins_with(y + z, x),
{
    assert((y + z).subrange(0, x.len() as int) =~= y.subrange(0, x.len() as int));
}

/// Everything that is found is reported: the hits of each revision, and the file that they are
/// found in. Nothing is reported exactly where nothing is found.
pub proof fn law_search_reports_every_revision(
    rs: Seq<RevisionView>,
    ts: Seq<TextsView>,
    needle: Seq<char>,
    i: int,
)
    requires
        rs.len() == ts.len(),
        0 <= i < rs.len(),
    ensures
        revision_hits(false, rs[i], ts[i], needle) matches Some(hits) ==> occurs(
            search_found(false, rs, ts, needle),
            hits,
        ) && (exists|j: int|
            0 <= j <= i && same_path_text(rs[j].access.path, rs[i].access.path) && occurs(
                search_found(false, rs, ts, needle),
                "FILE: "@ + (#[trigger] rs[j]).access.path + "\n"@,
            )),
        (forall|j: int|
            0 <= j < rs.len() ==> revision_hits(false, #[trigger] rs[j], ts[j], needle) is None)
            ==> search_found(false, rs, ts, needle).len() == 0,
{
    reveal_strlit("FILE:");
    reveal_strlit("FILE: ");
    reveal_strlit(" ");
    let n = rs.len() as int;
    let whole = search_found(false, rs, ts, needle);
    let end = hits_part(false, rs, ts, needle, n).0;
    match revision_hits(false, rs[i], ts[i], needle) {
        Some(hits) => {
            lemma_hits_grow(false, rs, ts, needle, i + 1, n);
            let now = hits_part(false, rs, ts, needle, i + 1).0;
            assert(occurs(whole, now)) by {
                assert(whole.subrange(0, now.len() as int) =~= end.subrange(0, now.len() as int));
                assert(occurs_at(whole, now, 0));
            }
            assert(occurs(now, hits)) by {
                let k = now.len() - hits.len();
                assert(now.subrange(k, k + hits.len()) =~= hits);
                assert(occurs_at(now, hits, k));
            }
            lemma_occurs_in_a_part(whole, now, hits);
            let j = lemma_file_is_named(rs, ts, needle, i + 1);
            lemma_occurs_in_a_part(whole, now, "FILE: "@ + rs[j].access.path + "\n"@);
        },
        None => {},
    }
    if forall|j: int|
        0 <= j < rs.len() ==> revision_hits(false, #[trigger] rs[j], ts[j], needle) is None {
        lemma_nothing_found(rs, ts, needle, n);
    }
}

proof fn lemma_nothing_found(rs: Seq<RevisionView>, ts: Seq<TextsView>, needle: Seq<char>, n: int)
    requires
        0 <= n <= rs.len(),
        forall|j: int|
            0 <= j < rs.len() ==> revision_hits(false, #[trigger] rs[j], ts[j], needle) is None,
    ensures
        hits_part(false, rs, ts, needle, n) == (Seq::<char>::empty(), None::<Seq<char>>),
    decreases n,
{
    if n > 0 {
        lemma_nothing_found(rs, ts, needle, n - 1);
        assert(revision_hits(false, rs[n - 1], ts[n - 1], needle) is None);
    }
}

/// The file that was named last, and that it is named in the report.
proof fn lemma_file_is_named(
    rs: Seq<RevisionView>,
    ts: Seq<TextsView>,
    needle: Seq<char>,
    n: int,
) -> (j: int)
    requires
        0 <= n <= rs.len(),
        hits_part(false, rs, ts, needle, n).1 is Some,
    ensures
        0 <= j < n,
        hits_part(false, rs, ts, needle, n).1 == Some(rs[j].access.path),
        revision_hits(false, rs[n - 1], ts[n - 1], needle) is Some ==> same_path_text(
            rs[j].access.path,
            rs[n - 1].access.path,
        ),
        occurs(
            hits_part(false, rs, ts, needle, n).0,
            "FILE: "@ + rs[j].access.path + "\n"@,
        ),
    decreases n,
{
    reveal_strlit("FILE:");
    reveal_strlit("FILE: ");
    reveal_strlit(" ");
    let (before, file) = hits_part(false, rs, ts, needle, n - 1);
    let path = rs[n - 1].access.path;
    let now = hits_part(false, rs, ts, needle, n).0;
    match revision_hits(false, rs[n - 1], ts[n - 1], needle) {
        None => lemma_file_is_named(rs, ts, needle, n - 1),
        Some(hits) => {
            if file matches Some(p) && same_path_text(p, path) {
                let j = lemma_file_is_named(rs, ts, needle, n - 1);
                let heading = "FILE: "@ + rs[j].access.path + "\n"@;
                law_occurrence_splits_a_text(before, heading);
                let (d, e) = choose|d: Seq<char>, e: Seq<char>|
                    before == #[trigger] (d + heading + e);
                assert(now =~= d + heading + (e + hits));
                law_occurrence_splits_a_text(now, heading);
                j
            } else {
                let heading = "FILE: "@ + path + "\n"@;
                let shown = "FILE:"@ + " "@ + path + "\n"@;
                assert(shown =~= heading);
                let front = if file is None {
                    before
                } else {
                    before + "\n"@
                };
                assert(now =~= front + heading + hits);
                law_occurrence_splits_a_text(now, heading);
                n - 1
            }
        },
    }
}

/// The width of a column is that of its widest text, and at least the least.
pub proof fn law_column_holds_every_text(list: Seq<Seq<char>>, least: nat, n: int)
    requires
        0 <= n <= list.len(),
    ensures
        widest_bytes(list, n, least) >= least,
        forall|i: int| 0 <= i < n ==> byte_len(#[trigger] list[i]) <= widest_bytes(list, n, least),
        widest_bytes(list, n, least) == least || exists|i: int|
            0 <= i < n && byte_len(#[trigger] list[i]) == widest_bytes(list, n, least),
    decreases n,
{
    if n > 0 {
        law_column_holds_every_text(list, least, n - 1);
        if byte_len(list[n - 1]) > widest_bytes(list, n - 1, least) {
            assert(byte_len(list[n - 1]) == widest_bytes(list, n, least));
        }
    }
}

/// The latest number of a file is the greatest that one of its revisions has.
pub proof fn law_latest_number_is_the_greatest(rs: Seq<RevisionView>, path: Seq<char>, n: int)
    requires
        0 <= n <= rs.len(),
    ensures
        forall|i: int|
            0 <= i < n && same_path_text((#[trigger] rs[i]).access.path, path) ==> rs[i].number
                <= latest_number(rs, path, n),
        latest_number(rs, path, n) == 0 || exists|i: int|
            0 <= i < n && same_path_text((#[trigger] rs[i]).access.path, path) && rs[i].number
                == latest_number(rs, path, n),
    decreases n,
{
    if n > 0 {
        law_latest_number_is_the_greatest(rs, path, n - 1);
        if same_path_text(rs[n - 1].access.path, path) && rs[n - 1].number > latest_number(
            rs,
            path,
            n - 1,
        ) {
            assert(rs[n - 1].number == latest_number(rs, path, n));
        }
    }
}

/// A revision of a list is its file's latest exactly where none of its file has a greater number.
pub proof fn law_latest_has_no_greater(rs: Seq<RevisionView>, k: int)
    requires
        0 <= k < rs.len(),
    ensures
        is_latest(rs, rs[k]) <==> forall|i: int|
            0 <= i < rs.len() && same_path_text((#[trigger] rs[i]).access.path, rs[k].access.path)
                ==> rs[i].number <= rs[k].number,
{
    law_latest_number_is_the_greatest(rs, rs[k].access.path, rs.len() as int);
    assert(same_path_text(rs[k].access.path, rs[k].access.path));
}

/// A revision is painted by whether it is the latest of its file and whether the file still holds
/// it; without colours it is left as it is.
pub proof fn law_state_of_a_revision_is_painted(
    rs: Seq<RevisionView>,
    r: RevisionView,
    text: Seq<char>,
)
    ensures
        forall|synced: bool| #[trigger] sync_painted(false, rs, r, synced, text) == text,
        !is_latest(rs, r) ==> forall|synced: bool| #[trigger]
            sync_painted(true, rs, r, synced, text) == "\x1b[2m"@ + text + "\x1b[0m"@,
        is_latest(rs, r) ==> sync_painted(true, rs, r, true, text) == "\x1b[1m\x1b[32m"@ + text
            + "\x1b[0m\x1b[0m"@,
        is_latest(rs, r) ==> sync_painted(true, rs, r, false, text) == "\x1b[1m\x1b[31m"@ + text
            + "\x1b[0m\x1b[0m"@,
{
    reveal_strlit("\x1b[");
    reveal_strlit("m");
    reveal_strlit("\x1b[0m");
    reveal_strlit("1");
    reveal_strlit("2");
    reveal_strlit("32");
    reveal_strlit("31");
    reveal_strlit("\x1b[2m");
    reveal_strlit("\x1b[1m\x1b[32m");
    reveal_strlit("\x1b[1m\x1b[31m");
    reveal_strlit("\x1b[0m\x1b[0m");
    assert(painted(true, "2"@, text) =~= "\x1b[2m"@ + text + "\x1b[0m"@);
    assert(painted(true, "1"@, painted(true, "32"@, text)) =~= "\x1b[1m\x1b[32m"@ + text
        + "\x1b[0m\x1b[0m"@);
    assert(painted(true, "1"@, painted(true, "31"@, text)) =~= "\x1b[1m\x1b[31m"@ + text
        + "\x1b[0m\x1b[0m"@);
}

/// The row of a path and a number is the first that has both, and there is none exactly where no
/// row has both.
pub proof fn law_row_has_path_and_number(
    rs: Seq<RevisionView>,
    path: Seq<char>,
    number: u64,
    from: int,
)
    requires
        0 <= from,
    ensures
        match place_of_row(rs, path, number, from) {
            Some(i) => from <= i < rs.len() && rs[i].number == number && same_path_text(
                rs[i].access.path,
                path,
            ) && forall|j: int|
                from <= j < i ==> !((#[trigger] rs[j]).number == number && same_path_text(
                    rs[j].access.path,
                    path,
                )),
            None => forall|j: int|
                from <= j < rs.len() ==> !((#[trigger] rs[j]).number == number && same_path_text(
                    rs[j].access.path,
                    path,
                )),
        },
    decreases rs.len() - from,
{
    if from < rs.len() && !(rs[from].number == number && same_path_text(
        rs[from].access.path,
        path,
    )) {
        law_row_has_path_and_number(rs, path, number, from + 1);
    }
}

/// An item of a list speaks of its entry of the index: the file, the revision and what it is. The
/// time, the editor and the user are those of the revision with this path and number, and nothing
/// where there is none.
pub proof fn law_item_speaks_of_its_entry(e: IndexView, rs: Seq<RevisionView>, all: bool)
    ensures
        ({
            let item = item_of(e, rs, all);
            &&& item.path == joined_path(e.branch, e.leaf) && item.rev == e.revision
            &&& item.display == if all {
                item.path
            } else {
                e.leaf
            }
            &&& item.kind == match e.kind {
                'a' => "access"@,
                'b' => "backup"@,
                _ => "diff"@,
            }
            &&& (forall|j: int|
                0 <= j < rs.len() ==> !((#[trigger] rs[j]).number == e.revision && same_path_text(
                    rs[j].access.path,
                    item.path,
                ))) ==> item.epoch == 0 && item.editor.len() == 0 && item.actor.len() == 0
            &&& forall|i: int|
                0 <= i < rs.len() && (#[trigger] rs[i]).number == e.revision && same_path_text(
                    rs[i].access.path,
                    item.path,
                ) && (forall|j: int|
                    0 <= j < i ==> !((#[trigger] rs[j]).number == e.revision && same_path_text(
                        rs[j].access.path,
                        item.path,
                    ))) ==> {
                    &&& item.epoch == rs[i].access.epoch && item.actor == rs[i].actor
                    &&& item.editor.len() <= 4 && item.editor == rs[i].access.editor.subrange(
                        0,
                        item.editor.len() as int,
                    )
                    &&& item.editor.len() == 4 || item.editor == rs[i].access.editor
                }
        }),
{
    let path = entry_path(e);
    law_row_has_path_and_number(rs, path, e.revision, 0);
    assert forall|i: int|
        0 <= i < rs.len() && (#[trigger] rs[i]).number == e.revision && same_path_text(
            rs[i].access.path,
            path,
        ) && (forall|j: int|
            0 <= j < i ==> !((#[trigger] rs[j]).number == e.revision && same_path_text(
                rs[j].access.path,
                path,
            ))) implies place_of_row(rs, path, e.revision, 0) == Some(i) by {
        match place_of_row(rs, path, e.revision, 0) {
            Some(k) => {
                if k < i {
                    assert(rs[k].number == e.revision);
                }
            },
            None => {},
        }
    }
    assert forall|s: Seq<char>| #[trigger] first_four(s) == s.subrange(
        0,
        first_four(s).len() as int,
    ) by {
        assert(s.subrange(0, first_four(s).len() as int) =~= first_four(s));
    }
}

proof fn lemma_items_filtered(
    es: Seq<IndexView>,
    n: int,
    rs: Seq<RevisionView>,
    all: bool,
    scope: Seq<char>,
    directory: bool,
)
    requires
        0 <= n <= es.len(),
    ensures
        items_part(es, n, rs, all, scope, directory) == es.take(n).filter(
            |e: IndexView| is_listed(e, all, scope, directory),
        ).map(|i: int, e: IndexView| item_of(e, rs, all)),
    decreases n,
{
    reveal(Seq::filter);
    let listed = |e: IndexView| is_listed(e, all, scope, directory);
    let kept = es.take(n).filter(listed);
    if n > 0 {
        lemma_items_filtered(es, n - 1, rs, all, scope, directory);
        assert(es.take(n).drop_last() =~= es.take(n - 1));
        assert(es.take(n).last() == es[n - 1]);
        let before = es.take(n - 1).filter(listed);
        let f = |i: int, e: IndexView| item_of(e, rs, all);
        if is_listed(es[n - 1], all, scope, directory) {
            assert(kept == before.push(es[n - 1]));
            assert(kept.map(f) =~= before.map(f).push(item_of(es[n - 1], rs, all)));
        }
    } else {
        assert(kept.len() == 0);
        assert(kept.map(|i: int, e: IndexView| item_of(e, rs, all)) =~= Seq::<ItemView>::empty());
    }
}

/// A list has an item for every entry of the index that it is of, in their order: all entries where
/// it is of everything, else those of files in a directory, or those of one file.
pub proof fn law_list_has_every_entry(
    es: Seq<IndexView>,
    rs: Seq<RevisionView>,
    all: bool,
    scope: Seq<char>,
    directory: bool,
    e: IndexView,
)
    ensures
        items_part(es, es.len() as int, rs, all, scope, directory) == es.filter(
            |e: IndexView| is_listed(e, all, scope, directory),
        ).map(|i: int, e: IndexView| item_of(e, rs, all)),
        all ==> is_listed(e, all, scope, directory),
        !all && !directory ==> (is_listed(e, all, scope, directory) <==> components(
            joined_path(e.branch, e.leaf),
        ) == components(scope)),
        !all && directory ==> (is_listed(e, all, scope, directory) <==> (parent_of(
            joined_path(e.branch, e.leaf),
        ) matches Some(p) && components(p) == components(scope))),
{
    lemma_items_filtered(es, es.len() as int, rs, all, scope, directory);
    assert(es.take(es.len() as int) =~= es);
}

/// Whether an item stands no later than another in an order.
pub open spec fn item_stands_before(a: ItemView, b: ItemView, order: ListOrder) -> bool {
    match order {
        ListOrder::File => text_less(a.display, b.display) || (a.display == b.display && (a.rev
            > b.rev || (a.rev == b.rev && (text_less(a.kind, b.kind) || a.kind == b.kind)))),
        ListOrder::User => text_less(a.actor, b.actor) || (a.actor == b.actor && (a.epoch > b.epoch
            || (a.epoch == b.epoch && (text_less(a.display, b.display) || a.display == b.display)))),
        ListOrder::Group | ListOrder::Time => a.epoch > b.epoch || (a.epoch == b.epoch && (text_less(
            a.display,
            b.display,
        ) || (a.display == b.display && (text_less(a.kind, b.kind) || a.kind == b.kind)))),
    }
}

proof fn lemma_text_part(a: Seq<char>, b: Seq<char>, x: Seq<u64>, y: Seq<u64>)
    requires
        key_at_most(text_key(a) + x, text_key(b) + y),
    ensures
        text_less(a, b) || (a == b && key_at_most(x, y)),
{
    if key_begins(text_key(a), text_key(b)) {
        law_text_keys_are_separate(a, b);
    }
    if key_begins(text_key(b), text_key(a)) {
        law_text_keys_are_separate(b, a);
    }
    lemma_joined_keys(text_key(a), text_key(b), x, y);
    law_text_keys_are_faithful(a, b);
}

proof fn lemma_number_part(a: u64, b: u64, x: Seq<u64>, y: Seq<u64>)
    requires
        key_at_most(seq![a] + x, seq![b] + y),
    ensures
        a < b || (a == b && key_at_most(x, y)),
{
    let (m, n) = (seq![a], seq![b]);
    assert(m.subrange(0, 1) =~= m && n.subrange(0, 1) =~= n);
    lemma_joined_keys(m, n, x, y);
    if key_less(m, n) {
        let k = choose|k: int| smaller_at(m, n, k);
        assert(k == 0);
        assert(m[0] < n[0]);
    } else {
        assert(m[0] == n[0]);
    }
}

proof fn lemma_last_text(a: Seq<char>, b: Seq<char>)
    requires
        key_at_most(text_key(a), text_key(b)),
    ensures
        text_less(a, b) || a == b,
{
    let none = Seq::<u64>::empty();
    assert(text_key(a) + none =~= text_key(a));
    assert(text_key(b) + none =~= text_key(b));
    lemma_text_part(a, b, none, none);
}

proof fn lemma_middle_number(
    a: Seq<char>,
    b: Seq<char>,
    m: u64,
    n: u64,
    x: Seq<char>,
    y: Seq<char>,
)
    requires
        key_at_most(
            text_key(a) + seq![m] + text_key(x),
            text_key(b) + seq![n] + text_key(y),
        ),
    ensures
        text_less(a, b) || (a == b && (m < n || (m == n && (text_less(x, y) || x == y)))),
{
    lemma_put_before(text_key(a), seq![m], text_key(x));
    lemma_put_before(text_key(b), seq![n], text_key(y));
    lemma_text_part(a, b, seq![m] + text_key(x), seq![n] + text_key(y));
    if !text_less(a, b) {
        lemma_number_part(m, n, text_key(x), text_key(y));
        if m == n {
            lemma_last_text(x, y);
        }
    }
}

proof fn lemma_first_number(
    m: u64,
    n: u64,
    a: Seq<char>,
    b: Seq<char>,
    x: Seq<char>,
    y: Seq<char>,
)
    requires
        key_at_most(
            seq![m] + text_key(a) + text_key(x),
            seq![n] + text_key(b) + text_key(y),
        ),
    ensures
        m < n || (m == n && (text_less(a, b) || (a == b && (text_less(x, y) || x == y)))),
{
    lemma_put_before(seq![m], text_key(a), text_key(x));
    lemma_put_before(seq![n], text_key(b), text_key(y));
    lemma_number_part(m, n, text_key(a) + text_key(x), text_key(b) + text_key(y));
    if m == n {
        lemma_text_part(a, b, text_key(x), text_key(y));
        if !text_less(a, b) {
            lemma_last_text(x, y);
        }
    }
}

proof fn lemma_item_keys(a: ItemView, b: ItemView, order: ListOrder)
    requires
        key_at_most(item_key(a, order), item_key(b, order)),
    ensures
        item_stands_before(a, b, order),
{
    match order {
        ListOrder::File => {
            let (m, n) = ((u64::MAX - a.rev) as u64, (u64::MAX - b.rev) as u64);
            lemma_middle_number(a.display, b.display, m, n, a.kind, b.kind);
        },
        ListOrder::User => {
            let (m, n) = ((u64::MAX - a.epoch) as u64, (u64::MAX - b.epoch) as u64);
            lemma_middle_number(a.actor, b.actor, m, n, a.display, b.display);
        },
        ListOrder::Group | ListOrder::Time => {
            let (m, n) = ((u64::MAX - a.epoch) as u64, (u64::MAX - b.epoch) as u64);
            lemma_first_number(m, n, a.display, b.display, a.kind, b.kind);
        },
    }
}

/// Ordering a list keeps its items, and puts them in the order that was asked for: by name, with
/// the latest revision of a file first; by user, with the newest first; or by time, with the newest
/// first.
pub proof fn law_list_is_in_order(items: Seq<ItemView>, order: ListOrder)
    ensures
        items_ordered(items, order).to_multiset() == items.to_multiset(),
        forall|i: int, j: int|
            0 <= i < j < items_ordered(items, order).len() ==> item_stands_before(
                #[trigger] items_ordered(items, order)[i],
                #[trigger] items_ordered(items, order)[j],
                order,
            ),
{
    let keys = item_keys(items, order);
    law_sorting_keeps_items(items, keys);
    law_stable_order(keys);
    let places = stable_order(keys);
    let sorted = items_ordered(items, order);
    assert forall|i: int, j: int| 0 <= i < j < sorted.len() implies item_stands_before(
        #[trigger] sorted[i],
        #[trigger] sorted[j],
        order,
    ) by {
        assert(comes_before(keys, places[i], places[j]));
        lemma_item_keys(items[places[i]], items[places[j]], order);
    }
}

/// The flag of a list tells its order, and everything that is no other order is by time.
pub proof fn law_flag_tells_the_order(flag: Seq<char>)
    ensures
        order_of(flag) == ListOrder::File <==> flag == "-lsf"@,
        order_of(flag) == ListOrder::User <==> flag == "-lsu"@,
        order_of(flag) == ListOrder::Group <==> flag == "-lsg"@,
{
    reveal_strlit("-lsf");
    reveal_strlit("-lsu");
    reveal_strlit("-lsg");
    assert("-lsf"@[3] == 'f' && "-lsu"@[3] == 'u' && "-lsg"@[3] == 'g');
}

/// What a list is of: this directory where nothing or a dot is named, everything where a star or
/// several names are, and else what is named.
pub proof fn law_scope_is_what_is_named(args: Seq<Seq<char>>)
    ensures
        scope_of(args) == Scope::Here <==> args.len() == 0 || (args.len() == 1 && args[0] == "."@),
        scope_of(args) == Scope::All <==> args.len() > 1 || (args.len() == 1 && args[0] == "*"@),
        scope_of(args) == Scope::Named <==> args.len() == 1 && args[0] != "."@ && args[0] != "*"@,
{
    reveal_strlit(".");
    reveal_strlit("*");
    assert("."@[0] == '.' && "*"@[0] == '*');
}

/// The revisions that are searched are those that are meant, or all where nothing is named, by path
/// and then by number.
pub proof fn law_searched_rows_are_ordered(
    rs: Seq<RevisionView>,
    file: Option<(Seq<char>, Seq<char>)>,
)
    ensures
        searched_rows(rs, file).to_multiset() == (match file {
            Some((query, full)) => meant_by(rs, query, full),
            None => rs,
        }).to_multiset(),
        forall|i: int, j: int|
            0 <= i < j < searched_rows(rs, file).len() ==> {
                let (a, b) = (
                    #[trigger] searched_rows(rs, file)[i],
                    #[trigger] searched_rows(rs, file)[j],
                );
                path_less(a.access.path, b.access.path) || (same_path_text(
                    a.access.path,
                    b.access.path,
                ) && a.number <= b.number)
            },
{
    let wanted = match file {
        Some((query, full)) => meant_by(rs, query, full),
        None => rs,
    };
    let keys = search_keys(wanted);
    law_sorting_keeps_items(wanted, keys);
    law_stable_order(keys);
    let places = stable_order(keys);
    let sorted = searched_rows(rs, file);
    assert forall|i: int, j: int| 0 <= i < j < sorted.len() implies {
        let (a, b) = (#[trigger] sorted[i], #[trigger] sorted[j]);
        path_less(a.access.path, b.access.path) || (same_path_text(a.access.path, b.access.path)
            && a.number <= b.number)
    } by {
        assert(comes_before(keys, places[i], places[j]));
        let (a, b) = (sorted[i], sorted[j]);
        let (p, q) = (path_key(a.access.path), path_key(b.access.path));
        if key_begins(p, q) {
            law_path_keys_are_separate(a.access.path, b.access.path);
        }
        if key_begins(q, p) {
            law_path_keys_are_separate(b.access.path, a.access.path);
        }
        lemma_joined_keys(p, q, seq![a.number], seq![b.number]);
        law_path_keys_order_paths(a.access.path, b.access.path);
        law_path_keys_are_faithful(a.access.path, b.access.path);
        if p == q && !key_less(p, q) {
            let none = Seq::<u64>::empty();
            assert(seq![a.number] + none =~= seq![a.number]);
            assert(seq![b.number] + none =~= seq![b.number]);
            lemma_number_part(a.number, b.number, none, none);
        }
    }
}

/// The history holds exactly the revisions that are meant, or all where nothing is named; where a
/// file is named from here, those of the file of this name here come first.
pub proof fn law_history_holds_what_is_meant(
    rs: Seq<RevisionView>,
    query: Option<Seq<char>>,
    full: Option<Seq<char>>,
)
    ensures
        history_meant(rs, query, full).to_multiset() == (match query {
            Some(q) => meant_by(
                rs,
                q,
                match full {
                    Some(f) => f,
                    None => Seq::empty(),
                },
            ),
            None => rs,
        }).to_multiset(),
        ({
            let local = if query matches Some(q) && !(q.len() > 0 && q[0] == '/') {
                full
            } else {
                None
            };
            forall|i: int, j: int|
                0 <= i < j < history_meant(rs, query, full).len() ==> stands_before(
                    #[trigger] history_meant(rs, query, full)[i],
                    #[trigger] history_meant(rs, query, full)[j],
                    local,
                )
        }),
{
    let wanted = match query {
        Some(q) => meant_by(
            rs,
            q,
            match full {
                Some(f) => f,
                None => Seq::empty(),
            },
        ),
        None => rs,
    };
    law_sorting_keeps_items(wanted, history_orders(wanted, local_file(query, full)));
    law_history_is_ordered(wanted, local_file(query, full));
}

/// The revision that a side of a comparison names has the number that is named; what is no number
/// is answered with how the command is used.
pub proof fn law_compared_revision_has_the_number(arg: Seq<char>, rs: Seq<RevisionView>)
    ensures
        match compared_revision(arg, rs) {
            Ok(i) => 0 <= i < rs.len() && parsed(arg, u64::MAX as nat) == Some(
                rs[i].number as nat,
            ),
            Err(e) => e.code == 2 && match parsed(arg, u64::MAX as nat) {
                None => e.message == DIFF_USAGE@,
                Some(n) => e.message == "Revision not found\n"@ && forall|j: int|
                    0 <= j < rs.len() ==> (#[trigger] rs[j]).number != n,
            },
        },
{
    match parsed(arg, u64::MAX as nat) {
        Some(n) => {
            lemma_place_of_number(rs, n as u64, 0);
        },
        None => {},
    }
}

proof fn lemma_padded_is_one_line(s: Seq<char>, width: int)
    requires
        one_line(s),
    ensures
        one_line(padded_right(s, width)),
        one_line(padded_left(s, ' ', width)),
{
}

/// The row of an item in a table without colours.
pub open spec fn table_row(i: ItemView, file_width: nat, user_width: nat) -> Seq<char> {
    padded_right(i.display, file_width as int) + "  "@ + padded_left(decimal(i.rev as nat), ' ', 3)
        + "  "@ + padded_right(i.kind, 7) + "  "@ + padded_right(i.stamp, 12) + "  "@
        + padded_right(i.editor, 4) + "  "@ + padded_right(i.actor, user_width as int)
}

/// Whether what an item shows fits on a line.
pub open spec fn item_is_plain(i: ItemView) -> bool {
    one_line(i.display) && one_line(i.kind) && one_line(i.stamp) && one_line(i.editor) && one_line(
        i.actor,
    )
}

proof fn lemma_table_rows(
    rs: Seq<RevisionView>,
    synced: Seq<bool>,
    items: Seq<ItemView>,
    file_width: nat,
    user_width: nat,
    n: int,
)
    requires
        0 <= n <= items.len(),
    ensures
        table_lines(false, rs, synced, items, file_width, user_width, n) == rows_text(
            Seq::new(n as nat, |i: int| table_row(items[i], file_width, user_width)),
        ),
    decreases n,
{
    let rows = Seq::new(n as nat, |i: int| table_row(items[i], file_width, user_width));
    if n > 0 {
        lemma_table_rows(rs, synced, items, file_width, user_width, n - 1);
        assert(rows.drop_last() =~= Seq::new(
            (n - 1) as nat,
            |i: int| table_row(items[i], file_width, user_width),
        ));
        assert(table_lines(false, rs, synced, items, file_width, user_width, n) =~= rows_text(
            rows.drop_last(),
        ) + rows.last() + "\n"@);
    }
}

/// A table has a heading and below it one row for each item, in their order, with its file, its
/// revision, what it is, its time, its editor and its user, each in a column that is wide enough.
pub proof fn law_table_has_a_row_for_each_item(
    rs: Seq<RevisionView>,
    synced: Seq<bool>,
    items: Seq<ItemView>,
)
    requires
        forall|i: int| 0 <= i < items.len() ==> item_is_plain(#[trigger] items[i]),
    ensures
        ({
            let file_width = column_width(item_displays(items), 4);
            let user_width = column_width(item_actors(items), 4);
            pieces(table_of(false, rs, synced, items), "\n"@) == seq![
                padded_right("FILE"@, file_width as int) + "  REV  TYPE     WHEN          EDIT  "@
                    + padded_right("USER"@, user_width as int),
            ] + Seq::new(items.len(), |i: int| table_row(items[i], file_width, user_width)) + seq![
                Seq::<char>::empty(),
            ]
        }),
        forall|i: int|
            0 <= i < items.len() ==> byte_len((#[trigger] items[i]).display) <= column_width(
                item_displays(items),
                4,
            ) && byte_len(items[i].actor) <= column_width(item_actors(items), 4),
{
    broadcast use lemma_one_line;

    reveal_strlit("\n");
    reveal_strlit("  ");
    reveal_strlit("FILE");
    reveal_strlit("REV");
    reveal_strlit("TYPE");
    reveal_strlit("WHEN");
    reveal_strlit("EDIT");
    reveal_strlit("USER");
    reveal_strlit("  REV  TYPE     WHEN          EDIT  ");
    let file_width = column_width(item_displays(items), 4);
    let user_width = column_width(item_actors(items), 4);
    let rows = Seq::new(items.len(), |i: int| table_row(items[i], file_width, user_width));
    let head = padded_right("FILE"@, file_width as int) + "  REV  TYPE     WHEN          EDIT  "@
        + padded_right("USER"@, user_width as int);
    lemma_table_rows(rs, synced, items, file_width, user_width, items.len() as int);
    let text = rows_text(rows);
    assert("  "@ + padded_left("REV"@, ' ', 3) + "  "@ + padded_right("TYPE"@, 7) + "  "@
        + padded_right("WHEN"@, 12) + "  "@ + padded_right("EDIT"@, 4) + "  "@
        =~= "  REV  TYPE     WHEN          EDIT  "@);
    assert(table_heading(false, file_width, user_width) =~= head + "\n"@);
    assert(table_of(false, rs, synced, items) =~= head + "\n"@ + text);
    lemma_report_joined(head, rows, text);
    let all = seq![head] + rows + seq![Seq::<char>::empty()];
    assert forall|i: int| 0 <= i < all.len() implies one_line(#[trigger] all[i]) by {
        assert(one_line("  "@) && one_line("FILE"@) && one_line("USER"@) && one_line(
            "  REV  TYPE     WHEN          EDIT  "@,
        ));
        if i == 0 {
            lemma_padded_is_one_line("FILE"@, file_width as int);
            lemma_padded_is_one_line("USER"@, user_width as int);
        } else if i <= rows.len() {
            let item = items[i - 1];
            assert(item_is_plain(item));
            assert(all[i] == table_row(item, file_width, user_width));
            lemma_decimal(item.rev as nat);
            assert(one_line(decimal(item.rev as nat)));
            lemma_padded_is_one_line(item.display, file_width as int);
            lemma_padded_is_one_line(decimal(item.rev as nat), 3);
            lemma_padded_is_one_line(item.kind, 7);
            lemma_padded_is_one_line(item.stamp, 12);
            lemma_padded_is_one_line(item.editor, 4);
            lemma_padded_is_one_line(item.actor, user_width as int);
        }
    }
    law_splitting_undoes_joining(all);
    law_column_holds_every_text(item_displays(items), 4, items.len() as int);
    law_column_holds_every_text(item_actors(items), 4, items.len() as int);
    assert forall|i: int| 0 <= i < items.len() implies byte_len((#[trigger] items[i]).display)
        <= file_width && byte_len(items[i].actor) <= user_width by {
        assert(item_displays(items)[i] == items[i].display);
        assert(item_actors(items)[i] == items[i].actor);
    }
}

proof fn lemma_group_filtered(items: Seq<ItemView>, n: int, path: Seq<char>)
    requires
        0 <= n <= items.len(),
    ensures
        group_part(items, n, path) == items.take(n).filter(
            |i: ItemView| components(i.path) == components(path),
        ),
    decreases n,
{
    if n > 0 {
        lemma_group_filtered(items, n - 1, path);
        assert(items.take(n).drop_last() =~= items.take(n - 1));
        assert(items.take(n).last() == items[n - 1]);
    }
    reveal(Seq::filter);
}

/// The group of a file in a list by files: its heading, and a line for each of its items, with the
/// latest revision first.
pub proof fn law_group_holds_its_items(
    rs: Seq<RevisionView>,
    synced: Seq<bool>,
    items: Seq<ItemView>,
    path: Seq<char>,
    k: int,
)
    requires
        0 <= k < items.len(),
        same_path_text(items[k].path, path),
    ensures
        group_part(items, items.len() as int, path) == items.filter(
            |i: ItemView| components(i.path) == components(path),
        ),
        occurs(
            group_of(false, rs, synced, items, path),
            "  "@ + padded_left(decimal(items[k].rev as nat), ' ', 3) + "  "@ + padded_right(
                items[k].kind,
                7,
            ) + "  "@ + padded_right(items[k].stamp, 12) + "  "@ + padded_right(items[k].editor, 4)
                + "  "@ + items[k].actor + "\n"@,
        ),
{
    lemma_group_filtered(items, items.len() as int, path);
    assert(items.take(items.len() as int) =~= items);
    let own = |i: ItemView| components(i.path) == components(path);
    let group = group_part(items, items.len() as int, path);
    assert(own(items[k]));
    items.lemma_filter_contains(own, k);
    assert(group.contains(items[k]));
    let keys = group_keys(group);
    law_sorting_keeps_items(group, keys);
    let ordered = sorted_by_key(group, keys);
    assert(ordered.contains(items[k]));
    let at = choose|at: int| 0 <= at < ordered.len() && ordered[at] == items[k];
    lemma_group_lines_hold(rs, synced, ordered, ordered.len() as int, at);
    let line = "  "@ + padded_left(decimal(items[k].rev as nat), ' ', 3) + "  "@ + padded_right(
        items[k].kind,
        7,
    ) + "  "@ + padded_right(items[k].stamp, 12) + "  "@ + padded_right(items[k].editor, 4) + "  "@
        + items[k].actor + "\n"@;
    assert(group_line(false, rs, synced, items[k]) =~= line);
    let lines = group_lines(false, rs, synced, ordered, ordered.len() as int);
    let head = labelled(false, "FILE:"@) + " "@ + path_shown(false, group[0].display) + "\n"@;
    assert(group_of(false, rs, synced, items, path) =~= head + lines + "\n"@);
    lemma_occurs_between(head, lines, "\n"@);
    lemma_occurs_in_a_part(group_of(false, rs, synced, items, path), lines, line);
}

proof fn lemma_group_lines_hold(
    rs: Seq<RevisionView>,
    synced: Seq<bool>,
    items: Seq<ItemView>,
    n: int,
    k: int,
)
    requires
        0 <= k < n <= items.len(),
    ensures
        occurs(
            group_lines(false, rs, synced, items, n),
            group_line(false, rs, synced, items[k]),
        ),
    decreases n,
{
    let before = group_lines(false, rs, synced, items, n - 1);
    let last = group_line(false, rs, synced, items[n - 1]);
    let all = group_lines(false, rs, synced, items, n);
    let none = Seq::<char>::empty();
    if k == n - 1 {
        lemma_occurs_between(before, last, none);
        assert(before + last + none =~= all);
    } else {
        lemma_group_lines_hold(rs, synced, items, n - 1, k);
        lemma_occurs_between(none, before, last);
        assert(none + before + last =~= all);
        lemma_occurs_in_a_part(all, before, group_line(false, rs, synced, items[k]));
    }
}

/// In a list by files every item stands in the group of its file.
pub proof fn law_every_item_stands_in_a_group(
    rs: Seq<RevisionView>,
    synced: Seq<bool>,
    items: Seq<ItemView>,
    k: int,
)
    requires
        0 <= k < items.len(),
    ensures
        exists|path: Seq<char>|
            same_path_text(items[k].path, path) && occurs(
                grouped(false, rs, synced, items),
                #[trigger] group_of(false, rs, synced, items, path),
            ),
{
    let paths = item_paths(items);
    let files = item_files(items);
    let keys = path_keys(paths);
    let ordered = sorted_by_key(paths, keys);
    law_sorting_keeps_items(paths, keys);
    assert(paths[k] == items[k].path);
    assert(paths.contains(items[k].path));
    assert(ordered.contains(items[k].path));
    let at = choose|at: int| 0 <= at < ordered.len() && ordered[at] == items[k].path;
    lemma_once_each_names(ordered, ordered.len() as int, at);
    let f = choose|f: int| 0 <= f < files.len() && same_path_text(#[trigger] files[f], ordered[at]);
    lemma_groups_hold(rs, synced, items, files, files.len() as int, f);
    assert(same_path_text(items[k].path, files[f]));
}

proof fn lemma_once_each_names(list: Seq<Seq<char>>, n: int, k: int)
    requires
        0 <= k < n <= list.len(),
    ensures
        exists|f: int|
            0 <= f < once_each(list, n).len() && same_path_text(
                #[trigger] once_each(list, n)[f],
                list[k],
            ),
    decreases n,
{
    let before = once_each(list, n - 1);
    let now = once_each(list, n);
    if k < n - 1 {
        lemma_once_each_names(list, n - 1, k);
        let f = choose|f: int| 0 <= f < before.len() && same_path_text(#[trigger] before[f], list[k]);
        assert(now[f] == before[f]);
    } else if before.len() > 0 && same_path_text(before.last(), list[n - 1]) {
        let f = before.len() - 1;
        assert(same_path_text(now[f], list[k]));
    } else {
        let f = before.len() as int;
        assert(same_path_text(now[f], list[k]));
    }
}

proof fn lemma_groups_hold(
    rs: Seq<RevisionView>,
    synced: Seq<bool>,
    items: Seq<ItemView>,
    files: Seq<Seq<char>>,
    n: int,
    k: int,
)
    requires
        0 <= k < n <= files.len(),
    ensures
        occurs(
            groups_of(false, rs, synced, items, files, n),
            group_of(false, rs, synced, items, files[k]),
        ),
    decreases n,
{
    let before = groups_of(false, rs, synced, items, files, n - 1);
    let last = group_of(false, rs, synced, items, files[n - 1]);
    let all = groups_of(false, rs, synced, items, files, n);
    let none = Seq::<char>::empty();
    if k == n - 1 {
        lemma_occurs_between(before, last, none);
        assert(before + last + none =~= all);
    } else {
        lemma_groups_hold(rs, synced, items, files, n - 1, k);
        lemma_occurs_between(none, before, last);
        assert(none + before + last =~= all);
        lemma_occurs_in_a_part(all, before, group_of(false, rs, synced, items, files[k]));
    }
}

/// The row of a revision in a history without colours.
pub open spec fn history_row(
    w: HistoryWidths,
    r: RevisionView,
    local: Option<Seq<char>>,
    stamp: Seq<char>,
) -> Seq<char> {
    padded_left(decimal(r.number as nat), ' ', 3) + "  "@ + padded_right(
        if local matches Some(p) && !same_path_text(r.access.path, p) {
            "other "@ + r.access.path
        } else {
            r.access.path
        },
        w.file as int,
    ) + "  "@ + padded_right(stamp, w.when as int) + "  "@ + padded_right(
        if r.access.editor.len() <= 4 {
            r.access.editor
        } else {
            r.access.editor.subrange(0, 4)
        },
        6,
    ) + "  "@ + padded_right(r.actor, w.user as int) + "  "@ + padded_right(
        match r.tag {
            Some(t) => t,
            None => Seq::empty(),
        },
        w.tag as int,
    ) + "\n"@
}

proof fn lemma_history_row(
    w: HistoryWidths,
    rs: Seq<RevisionView>,
    local: Option<Seq<char>>,
    stamps: Seq<Seq<char>>,
    synced: Seq<bool>,
    k: int,
)
    requires
        0 <= k < rs.len(),
    ensures
        ({
            let line = history_line(false, w, rs, local, stamps, synced, k);
            let row = history_row(w, rs[k], local, stamps[k]);
            let parted = !is_primary(rs, local, k) && (k == 0 || is_primary(rs, local, k - 1))
                && has_local(rs, local);
            (parted ==> line == "\n"@ + row) && (!parted ==> line == row)
        }),
{
    let r = rs[k];
    let row = history_row(w, r, local, stamps[k]);
    let line = history_line(false, w, rs, local, stamps, synced, k);
    assert(first_four(r.access.editor) == if r.access.editor.len() <= 4 {
        r.access.editor
    } else {
        r.access.editor.subrange(0, 4)
    });
    let number = padded_left(decimal(r.number as nat), ' ', 3);
    let file = padded_right(shown_file(r, local), w.file as int);
    let tag = padded_right(tag_or_nothing(r), w.tag as int);
    assert(sync_painted(false, rs, r, synced[k], number) == number);
    assert(sync_painted(false, rs, r, synced[k], file) == file);
    assert(warned(false, tag) == tag);
    let before = if !is_primary(rs, local, k) && (k == 0 || is_primary(rs, local, k - 1))
        && has_local(rs, local) {
        "\n"@
    } else {
        Seq::<char>::empty()
    };
    let when = padded_right(stamps[k], w.when as int);
    let editor = padded_right(first_four(r.access.editor), 6);
    let user = padded_right(r.actor, w.user as int);
    let gap = "  "@;
    let a = number + gap;
    let b = a + file;
    let c = b + gap;
    let d = c + when;
    let e = d + gap;
    let f = e + editor;
    let g = f + gap;
    let h = g + user;
    let i = h + gap;
    let j = i + tag;
    lemma_put_before(before, number, gap);
    lemma_put_before(before, a, file);
    lemma_put_before(before, b, gap);
    lemma_put_before(before, c, when);
    lemma_put_before(before, d, gap);
    lemma_put_before(before, e, editor);
    lemma_put_before(before, f, gap);
    lemma_put_before(before, g, user);
    lemma_put_before(before, h, gap);
    lemma_put_before(before, i, tag);
    lemma_put_before(before, j, "\n"@);
    assert(line == before + row);
    assert(Seq::<char>::empty() + row =~= row);
}

proof fn lemma_put_before<T>(p: Seq<T>, a: Seq<T>, b: Seq<T>)
    ensures
        p + a + b == p + (a + b),
{
    assert(p + a + b =~= p + (a + b));
}

/// The history has a row for each revision, with its number, its file, its time, its editor, its
/// user and its tag; rows stand in the order of the revisions, below the heading.
pub proof fn law_history_has_a_row_for_each_revision(
    rs: Seq<RevisionView>,
    local: Option<Seq<char>>,
    stamps: Seq<Seq<char>>,
    synced: Seq<bool>,
    k: int,
)
    requires
        0 <= k < rs.len(),
    ensures
        ({
            let w = history_widths(rs, local, stamps);
            let row = history_row(w, rs[k], local, stamps[k]);
            let before = history_lines(false, w, rs, local, stamps, synced, k);
            let now = history_lines(false, w, rs, local, stamps, synced, k + 1);
            &&& now == before + row || now == before + ("\n"@ + row)
            &&& occurs(history_table(false, rs, local, stamps, synced), row)
        }),
{
    let w = history_widths(rs, local, stamps);
    let line = history_line(false, w, rs, local, stamps, synced, k);
    let row = history_row(w, rs[k], local, stamps[k]);
    lemma_history_row(w, rs, local, stamps, synced, k);
    let none = Seq::<char>::empty();
    assert(occurs(line, row)) by {
        if line == row {
            lemma_occurs_between(none, row, none);
            assert(none + row + none =~= line);
        } else {
            lemma_occurs_between("\n"@, row, none);
            assert("\n"@ + row + none =~= line);
        }
    }
    let n = rs.len() as int;
    lemma_history_lines_hold(w, rs, local, stamps, synced, n, k);
    let all = history_lines(false, w, rs, local, stamps, synced, n);
    let table = history_table(false, rs, local, stamps, synced);
    let head = history_heading(false, w);
    lemma_occurs_between(head, all, none);
    assert(head + all + none =~= table);
    lemma_occurs_in_a_part(table, all, line);
    lemma_occurs_in_a_part(table, line, row);
}

proof fn lemma_history_lines_hold(
    w: HistoryWidths,
    rs: Seq<RevisionView>,
    local: Option<Seq<char>>,
    stamps: Seq<Seq<char>>,
    synced: Seq<bool>,
    n: int,
    k: int,
)
    requires
        0 <= k < n <= rs.len(),
    ensures
        occurs(
            history_lines(false, w, rs, local, stamps, synced, n),
            history_line(false, w, rs, local, stamps, synced, k),
        ),
    decreases n,
{
    let before = history_lines(false, w, rs, local, stamps, synced, n - 1);
    let last = history_line(false, w, rs, local, stamps, synced, n - 1);
    let all = history_lines(false, w, rs, local, stamps, synced, n);
    let none = Seq::<char>::empty();
    if k == n - 1 {
        lemma_occurs_between(before, last, none);
        assert(before + last + none =~= all);
    } else {
        lemma_history_lines_hold(w, rs, local, stamps, synced, n - 1, k);
        lemma_occurs_between(none, before, last);
        assert(none + before + last =~= all);
        lemma_occurs_in_a_part(
            all,
            before,
            history_line(false, w, rs, local, stamps, synced, k),
        );
    }
}

/// The name of a side is the path and the number of its revision, or a word for what is there now.
pub proof fn law_sides_are_named_by_their_revisions(path: Seq<char>, n: u64)
    ensures
        side_label(path, Some(n)) == path + seq!['@'] + decimal(n as nat),
        side_label(path, None) == path + "@live"@,
{
    reveal_strlit("@");
    assert("@"@ =~= seq!['@']);
}

proof fn lemma_bytes_of_more(a: Seq<char>, b: Seq<char>)
    requires
        b.len() > 0,
    ensures
        byte_len(a + b) > byte_len(a),
{
    lemma_encode_concat(a, b);
    if encode_utf8(b).len() == 0 {
        encode_utf8_decode_utf8(b);
        encode_utf8_decode_utf8(Seq::<char>::empty());
        assert(encode_utf8(b) =~= encode_utf8(Seq::<char>::empty()));
    }
}

/// Naming the sides of a difference replaces its two first lines and keeps everything behind them to
/// the last character. The name of the left side is at least as long as the line it replaces, and
/// does not look like the beginning of the second.
pub proof fn law_named_sides_keep_the_hunks(
    first: Seq<char>,
    second: Seq<char>,
    body: Seq<char>,
    left: Seq<char>,
    right: Seq<char>,
)
    requires
        one_line(first),
        one_line(second),
        !occurs(left, "+++ "@),
        byte_len(first) <= byte_len("--- "@ + left),
        can_be_named(first + "\n"@ + ("+++ "@ + second + "\n"@ + body), left),
    ensures
        sides_named(first + "\n"@ + ("+++ "@ + second + "\n"@ + body), left, right) == "--- "@ + left
            + "\n"@ + "+++ "@ + right + "\n"@ + body,
        sides_named(first, left, right) == first,
{
    reveal_strlit("\n");
    reveal_strlit("+++ ");
    reveal_strlit("--- ");
    let rest = "+++ "@ + second + "\n"@ + body;
    let text = first + "\n"@ + rest;
    lemma_ends_cleanly(first, "\n"@);
    lemma_pieces_step(first, "\n"@, rest);
    assert(!occurs(first, "\n"@)) by {
        if occurs(first, "\n"@) {
            let i = choose|i: int| occurs_at(first, "\n"@, i);
            assert(first.subrange(i, i + 1)[0] == '\n');
        }
    }
    lemma_pieces_last(first, "\n"@);
    let head = "--- "@ + left + "\n"@;
    let named = left_named(left, rest);
    assert(named =~= head + rest);
    let bytes = encode_utf8(named);
    let at = right_from(first);
    encode_utf8_valid_utf8(named);
    encode_utf8_decode_utf8(named);
    decode_utf8_split(bytes, at);
    let front = decode_utf8(bytes.subrange(0, at));
    let back = decode_utf8(bytes.subrange(at, bytes.len() as int));
    assert(front + back == named);
    valid_utf8_split(bytes, at);
    decode_utf8_encode_utf8(bytes.subrange(0, at));
    assert(byte_len(front) == at);
    lemma_bytes_of_a_line("--- "@ + left);
    assert(byte_len(head) == byte_len("--- "@ + left) + 1);
    assert(front.len() <= head.len()) by {
        if front.len() > head.len() {
            let extra = front.skip(head.len() as int);
            assert(front =~= head + extra) by {
                assert forall|i: int| 0 <= i < head.len() implies front[i] == head[i] by {
                    assert(named[i] == front[i]);
                    assert(named[i] == head[i]);
                }
            }
            lemma_bytes_of_more(head, extra);
        }
    }
    let k = front.len() as int;
    let gap = head.skip(k);
    assert(head =~= front + gap) by {
        assert forall|i: int| 0 <= i < k implies front[i] == head[i] by {
            assert(named[i] == front[i]);
            assert(named[i] == head[i]);
        }
    }
    assert(back =~= gap + rest) by {
        assert(named.skip(k) =~= back);
        assert(named.skip(k) =~= gap + rest);
    }
    let i = gap.len() as int;
    assert forall|j: int| 0 <= j < i implies !occurs_at(back, "+++ "@, j) by {
        if occurs_at(back, "+++ "@, j) {
            lemma_no_second_line(left, k + j, rest);
            assert(named.subrange(k + j, k + j + 4) =~= back.subrange(j, j + 4));
            assert(occurs_at(head + rest, "+++ "@, k + j));
        }
    }
    assert(back.subrange(i, i + 4) =~= "+++ "@);
    lemma_first_occurrence_is(back, "+++ "@, 0, i);
    let j = i + 4 + second.len();
    assert forall|m: int| i <= m < j implies !occurs_at(back, "\n"@, m) by {
        if occurs_at(back, "\n"@, m) {
            assert(back.subrange(m, m + 1)[0] == '\n');
            assert(back[m] == rest[m - i]);
            if m >= i + 4 {
                assert(rest[m - i] == second[m - i - 4]);
            }
        }
    }
    assert(back.subrange(j as int, j + 1) =~= "\n"@);
    lemma_first_occurrence_is(back, "\n"@, i, j as int);
    assert(back.subrange(0, i) =~= gap);
    assert(back.subrange(j as int, back.len() as int) =~= "\n"@ + body);
    assert(front + (gap + ("+++ "@ + right) + ("\n"@ + body)) =~= head + "+++ "@ + right + "\n"@
        + body);
}

proof fn lemma_bytes_of_a_line(s: Seq<char>)
    ensures
        byte_len(s + "\n"@) == byte_len(s) + 1,
{
    reveal_strlit("\n");
    lemma_encode_concat(s, "\n"@);
    assert(is_ascii_chars("\n"@));
    is_ascii_chars_encode_utf8("\n"@);
}

proof fn lemma_no_second_line(left: Seq<char>, m: int, rest: Seq<char>)
    requires
        !occurs(left, "+++ "@),
        0 <= m < left.len() + 5,
    ensures
        !occurs_at("--- "@ + left + "\n"@ + rest, "+++ "@, m),
{
    reveal_strlit("\n");
    reveal_strlit("+++ ");
    reveal_strlit("--- ");
    let whole = "--- "@ + left + "\n"@ + rest;
    if occurs_at(whole, "+++ "@, m) {
        let part = whole.subrange(m, m + 4);
        assert(part[0] == '+' && part[1] == '+' && part[2] == '+' && part[3] == ' ');
        assert(whole[m] == '+');
        if m < 4 {
            assert(whole[m] == "--- "@[m]);
        } else {
            let end = 4 + left.len() as int;
            assert(whole[end] == '\n');
            if m + 4 > end {
                assert(whole[end] == part[end - m]);
            } else {
                assert(left.subrange(m - 4, m) =~= part);
                assert(occurs_at(left, "+++ "@, m - 4));
            }
        }
    }
}

/// The lines of the group of a file stand by their numbers, the latest first, and those of a number
/// by what they are.
pub proof fn law_group_is_in_order(items: Seq<ItemView>)
    ensures
        ({
            let ordered = sorted_by_key(items, group_keys(items));
            &&& ordered.to_multiset() == items.to_multiset()
            &&& forall|i: int, j: int|
                0 <= i < j < ordered.len() ==> (#[trigger] ordered[i]).rev > (
                #[trigger] ordered[j]).rev || (ordered[i].rev == ordered[j].rev && (text_less(
                    ordered[i].kind,
                    ordered[j].kind,
                ) || ordered[i].kind == ordered[j].kind))
        }),
{
    let keys = group_keys(items);
    law_sorting_keeps_items(items, keys);
    law_stable_order(keys);
    let places = stable_order(keys);
    let ordered = sorted_by_key(items, keys);
    assert forall|i: int, j: int| 0 <= i < j < ordered.len() implies (#[trigger] ordered[i]).rev > (
    #[trigger] ordered[j]).rev || (ordered[i].rev == ordered[j].rev && (text_less(
        ordered[i].kind,
        ordered[j].kind,
    ) || ordered[i].kind == ordered[j].kind)) by {
        assert(comes_before(keys, places[i], places[j]));
        let (a, b) = (items[places[i]], items[places[j]]);
        let (m, n) = ((u64::MAX - a.rev) as u64, (u64::MAX - b.rev) as u64);
        lemma_number_part(m, n, text_key(a.kind), text_key(b.kind));
        if m == n {
            lemma_last_text(a.kind, b.kind);
        }
    }
}

/// The lines of a list have the colours of the revision that they are of; without colours, and where
/// the revision is not known, they stay plain.
pub proof fn law_line_has_the_colours_of_its_revision(
    rs: Seq<RevisionView>,
    synced: Seq<bool>,
    i: ItemView,
    text: Seq<char>,
)
    ensures
        item_painted(false, rs, synced, i, text) == text,
        (forall|j: int|
            0 <= j < rs.len() ==> !((#[trigger] rs[j]).number == i.rev && same_path_text(
                rs[j].access.path,
                i.path,
            ))) ==> item_painted(true, rs, synced, i, text) == text,
        place_of_row(rs, i.path, i.rev, 0) matches Some(n) ==> item_painted(
            true,
            rs,
            synced,
            i,
            text,
        ) == sync_painted(true, rs, rs[n], synced[n], text),
{
    law_row_has_path_and_number(rs, i.path, i.rev, 0);
}

/// A comparison prints the difference with its sides named: the revision on the left, and another
/// revision, or what is there now, on the right. Without colours it is exactly that.
pub proof fn law_comparison_names_its_sides(
    text: Seq<char>,
    path: Seq<char>,
    left: u64,
    right: Option<u64>,
    r: RevisionView,
)
    ensures
        comparison_text(false, text, path, left, right) == sides_named(
            text,
            path + "@"@ + decimal(left as nat),
            match right {
                Some(n) => path + "@"@ + decimal(n as nat),
                None => path + "@live"@,
            },
        ),
        actor_recorded(Some(r)) == r.actor,
        actor_recorded(None).len() == 0,
{
}

/// The groups of a list stand in the order of their files, each file once.
pub proof fn law_groups_stand_in_order(items: Seq<ItemView>, i: int, j: int)
    requires
        0 <= i < j < item_files(items).len(),
    ensures
        path_less(item_files(items)[i], item_files(items)[j]),
        !same_path_text(item_files(items)[i], item_files(items)[j]),
{
    let none = Seq::<char>::empty();
    let rs = items.map(
        |k: int, x: ItemView|
            RevisionView {
                key: none,
                leaf: none,
                number: 0,
                access: AccessView { epoch: 0, stamp: none, path: x.path, editor: none },
                backup: none,
                diff: None,
                tag: None,
                actor: none,
            },
    );
    assert(revision_paths(rs) =~= item_paths(items));
    law_each_file_is_listed_once(rs);
}

/// A list by files is its groups one after another.
pub proof fn law_groups_come_one_after_another(
    color: bool,
    rs: Seq<RevisionView>,
    synced: Seq<bool>,
    items: Seq<ItemView>,
    n: int,
)
    requires
        0 <= n < item_files(items).len(),
    ensures
        groups_of(color, rs, synced, items, item_files(items), n + 1) == groups_of(
            color,
            rs,
            synced,
            items,
            item_files(items),
            n,
        ) + group_of(color, rs, synced, items, item_files(items)[n]),
        groups_of(color, rs, synced, items, item_files(items), 0).len() == 0,
        grouped(color, rs, synced, items) == groups_of(
            color,
            rs,
            synced,
            items,
            item_files(items),
            item_files(items).len() as int,
        ),
{
}

/// The heading of a history names its columns, each over its own.
pub proof fn law_history_has_a_heading(
    rs: Seq<RevisionView>,
    local: Option<Seq<char>>,
    stamps: Seq<Seq<char>>,
    synced: Seq<bool>,
)
    ensures
        ({
            let w = history_widths(rs, local, stamps);
            begins_with(
                history_table(false, rs, local, stamps, synced),
                "REV  "@ + padded_right("FILE"@, w.file as int) + "  "@ + padded_right(
                    "WHEN"@,
                    w.when as int,
                ) + "  EDITOR  "@ + padded_right("USER"@, w.user as int) + "  "@ + padded_right(
                    "TAG"@,
                    w.tag as int,
                ) + "\n"@,
            )
        }),
{
    reveal_strlit("REV");
    reveal_strlit("REV  ");
    reveal_strlit("EDITOR");
    reveal_strlit("  EDITOR  ");
    reveal_strlit("  ");
    let w = history_widths(rs, local, stamps);
    let head = history_heading(false, w);
    assert(padded_left("REV"@, ' ', 3) + "  "@ =~= "REV  "@);
    assert(padded_right("EDITOR"@, 6) == "EDITOR"@);
    let front = "REV  "@ + padded_right("FILE"@, w.file as int) + "  "@ + padded_right(
        "WHEN"@,
        w.when as int,
    );
    lemma_put_before(front, "  "@, "EDITOR"@);
    lemma_put_before(front, "  "@ + "EDITOR"@, "  "@);
    assert("  "@ + "EDITOR"@ + "  "@ =~= "  EDITOR  "@);
    let text = history_table(false, rs, local, stamps, synced);
    assert(text.subrange(0, head.len() as int) =~= head);
}

/// In a history of a file that is named from here, a blank line stands between its own revisions and
/// those of other files of its name: before the first that is another's, where the file has revisions
/// of its own. Elsewhere there is none.
pub proof fn law_blank_line_parts_the_files(
    w: HistoryWidths,
    rs: Seq<RevisionView>,
    local: Option<Seq<char>>,
    stamps: Seq<Seq<char>>,
    synced: Seq<bool>,
    k: int,
)
    requires
        0 <= k < rs.len(),
        forall|i: int|
            0 <= i < rs.len() ==> (#[trigger] rs[i]).access.path.len() > 0 && rs[i].access.path[0]
                == '/',
    ensures
        ({
            let line = history_line(false, w, rs, local, stamps, synced, k);
            let row = history_row(w, rs[k], local, stamps[k]);
            let others = |i: int|
                local matches Some(p) && components(rs[i].access.path) != components(p);
            let parted = others(k) && (k == 0 || !others(k - 1)) && (local matches Some(p)
                && exists|i: int|
                0 <= i < rs.len() && components((#[trigger] rs[i]).access.path) == components(p));
            &&& parted ==> line == "\n"@ + row
            &&& !parted ==> line == row
        }),
{
    let others = |i: int| local matches Some(p) && components(rs[i].access.path) != components(p);
    reveal_strlit("other ");
    reveal_strlit("\n");
    assert forall|i: int| 0 <= i < rs.len() implies is_primary(rs, local, i) == !#[trigger] others(
        i,
    ) by {
        let path = rs[i].access.path;
        let shown = "other "@ + path;
        assert(shown.subrange(0, 6) =~= "other "@);
        if begins_with(path, "other "@) {
            assert(path.subrange(0, 6)[0] == 'o');
        }
    }
    assert(is_primary(rs, local, k) == !others(k));
    if k > 0 {
        assert(is_primary(rs, local, k - 1) == !others(k - 1));
    }
    match local {
        Some(p) => {
            assert(has_file(rs, p) <==> exists|i: int|
                0 <= i < rs.len() && components((#[trigger] rs[i]).access.path) == components(p))
                by {
                if has_file(rs, p) {
                    let i = choose|i: int|
                        0 <= i < rs.len() && #[trigger] same_path_text(rs[i].access.path, p);
                    assert(components(rs[i].access.path) == components(p));
                }
                if exists|i: int|
                    0 <= i < rs.len() && components((#[trigger] rs[i]).access.path) == components(p) {
                    let i = choose|i: int|
                        0 <= i < rs.len() && components((#[trigger] rs[i]).access.path)
                            == components(p);
                    assert(same_path_text(rs[i].access.path, p));
                }
            }
        },
        None => {},
    }
    lemma_history_row(w, rs, local, stamps, synced, k);
}

/// The model of an item of a list has all that is known of it.
pub proof fn law_model_of_an_item_of_a_list(x: ListItem)
    ensures
        x@.path == x.path@,
        x@.display == x.display@,
        x@.rev == x.rev,
        x@.kind == x.kind@,
        x@.epoch == x.epoch,
        x@.stamp == x.stamp@,
        x@.editor == x.editor@,
        x@.actor == x.actor@,
{
}

/// The model of the texts of a revision has all that is known of it.
pub proof fn law_model_of_the_texts_of_a_revision(x: RevisionTexts)
    ensures
        x@.backup == x.backup@,
        x@.diff == opt_view(x.diff),
{
}

} // verus!
