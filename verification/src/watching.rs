//! What watches on directories tell: the events that the system writes, and what a directory holds
//! that it did not hold before.
//!
//! The paths of events and of watched directories are raw text, with one character for each byte,
//! so that a name which is not UTF-8 stays what it is.

use crate::encoding::raw;
use crate::path::{join, same_path};
use crate::text::same;
use crate::wrapper::DirectoryEvent;
#[allow(unused_imports)]
use crate::{
    encoding::raw_text,
    path::{joined_path, same_path_text},
    text::{all_views, views},
};
use vstd::prelude::*;

verus! {

/// A watch on a directory.
#[derive(Debug, PartialEq, Eq)]
pub struct Watch {
    pub descriptor: i32,
    pub directory: String,
}

impl View for Watch {
    type V = (i32, Seq<char>);

    open spec fn view(&self) -> (i32, Seq<char>) {
        (self.descriptor, self.directory@)
    }
}

/// The bits of an event's mask that matter.
#[derive(Clone, Copy, Debug, PartialEq, Eq, Structural)]
pub struct MaskBits {
    /// The event is about a directory.
    pub directory: u32,
    /// The event tells of something new.
    pub created: u32,
}

/// Four bytes as a number, the least of them first or last.
pub open spec fn number_at(bytes: Seq<u8>, at: int, big_endian: bool) -> int {
    if big_endian {
        bytes[at] * 0x100_0000 + bytes[at + 1] * 0x1_0000 + bytes[at + 2] * 0x100 + bytes[at + 3]
    } else {
        bytes[at + 3] * 0x100_0000 + bytes[at + 2] * 0x1_0000 + bytes[at + 1] * 0x100 + bytes[at]
    }
}

/// A number of four bytes as one with a sign.
pub open spec fn signed(n: int) -> int {
    if n < 0x8000_0000 {
        n
    } else {
        n - 0x1_0000_0000
    }
}

/// The bytes before the first that is zero.
pub open spec fn before_zero(bytes: Seq<u8>) -> Seq<u8>
    decreases bytes.len(),
{
    if bytes.len() == 0 || bytes[0] == 0 {
        Seq::empty()
    } else {
        seq![bytes[0]] + before_zero(bytes.skip(1))
    }
}

/// Where the event at a place ends: it has a head of sixteen bytes, which tells in its last four
/// how long the name behind it is. None where the bytes end before.
pub open spec fn event_end(bytes: Seq<u8>, at: int, big_endian: bool) -> Option<int> {
    if at + 16 > bytes.len() {
        None
    } else {
        let end = at + 16 + number_at(bytes, at + 12, big_endian);
        if end > bytes.len() {
            None
        } else {
            Some(end)
        }
    }
}

/// The directory that a descriptor watches, from `from` on.
pub open spec fn watched_by(watches: Seq<(i32, Seq<char>)>, descriptor: int, from: int) -> Option<
    Seq<char>,
>
    decreases watches.len() - from,
{
    if from < 0 || from >= watches.len() {
        None
    } else if watches[from].0 == descriptor {
        Some(watches[from].1)
    } else {
        watched_by(watches, descriptor, from + 1)
    }
}

/// What the event at a place tells: the path of a file, and whether it is new. An event without a
/// name, one about a directory and one of an unknown watch tell nothing.
pub open spec fn event_at(
    bytes: Seq<u8>,
    at: int,
    end: int,
    big_endian: bool,
    watches: Seq<(i32, Seq<char>)>,
    bits: MaskBits,
) -> Seq<(Seq<char>, bool)> {
    let mask = number_at(bytes, at + 4, big_endian) as u32;
    let name = before_zero(bytes.subrange(at + 16, end));
    match watched_by(watches, signed(number_at(bytes, at, big_endian)), 0) {
        Some(directory) if end > at + 16 && mask & bits.directory == 0 => seq![
            (joined_path(directory, raw_text(name)), mask & bits.created != 0),
        ],
        _ => Seq::empty(),
    }
}

/// What the events from a place on tell.
pub open spec fn events_from(
    bytes: Seq<u8>,
    at: int,
    big_endian: bool,
    watches: Seq<(i32, Seq<char>)>,
    bits: MaskBits,
) -> Seq<(Seq<char>, bool)>
    decreases bytes.len() - at,
{
    match event_end(bytes, at, big_endian) {
        None => Seq::empty(),
        Some(end) => if end <= at {
            Seq::empty()
        } else {
            event_at(bytes, at, end, big_endian, watches, bits) + events_from(
                bytes,
                end,
                big_endian,
                watches,
                bits,
            )
        },
    }
}

fn read_number(bytes: &Vec<u8>, at: usize, big_endian: bool) -> (r: u32)
    requires
        at + 4 <= bytes@.len(),
    ensures
        r == number_at(bytes@, at as int, big_endian),
{
    let len: usize = bytes.len();
    assert(at + 4 <= len);
    let (a, b, c, d): (u8, u8, u8, u8) = if big_endian {
        (bytes[at], bytes[at + 1], bytes[at + 2], bytes[at + 3])
    } else {
        (bytes[at + 3], bytes[at + 2], bytes[at + 1], bytes[at])
    };
    (a as u32) * 0x100_0000 + (b as u32) * 0x1_0000 + (c as u32) * 0x100 + (d as u32)
}

fn read_descriptor(bytes: &Vec<u8>, at: usize, big_endian: bool) -> (r: i32)
    requires
        at + 4 <= bytes@.len(),
    ensures
        r == signed(number_at(bytes@, at as int, big_endian)),
{
    let n: u32 = read_number(bytes, at, big_endian);
    if n < 0x8000_0000 {
        n as i32
    } else {
        (n as i64 - 0x1_0000_0000) as i32
    }
}

fn read_name(bytes: &Vec<u8>, from: usize, to: usize) -> (r: Vec<u8>)
    requires
        from <= to <= bytes@.len(),
    ensures
        r@ == before_zero(bytes@.subrange(from as int, to as int)),
{
    let ghost field = bytes@.subrange(from as int, to as int);
    let mut name: Vec<u8> = Vec::new();
    let mut i: usize = from;
    assert(name@ + before_zero(field.skip(0)) =~= before_zero(field)) by {
        assert(field.skip(0) =~= field);
    }
    while i < to
        invariant
            from <= i <= to <= bytes@.len(),
            field == bytes@.subrange(from as int, to as int),
            name@ + before_zero(field.skip(i - from)) == before_zero(field),
        decreases to - i,
    {
        let ghost rest = field.skip(i - from);
        assert(rest[0] == bytes@[i as int]);
        if bytes[i] == 0 {
            assert(name@ + before_zero(rest) =~= name@);
            return name;
        }
        let ghost before = name@;
        name.push(bytes[i]);
        assert(rest.skip(1) =~= field.skip(i + 1 - from));
        assert(name@ + before_zero(rest.skip(1)) =~= before + before_zero(rest));
        i += 1;
    }
    assert(field.skip(i - from).len() == 0);
    assert(name@ + Seq::<u8>::empty() =~= name@);
    name
}

fn find_watch(watches: &Vec<Watch>, descriptor: i32) -> (r: Option<usize>)
    ensures
        match r {
            Some(i) => i < watches@.len() && watched_by(all_views(watches@), descriptor as int, 0)
                == Some(watches@[i as int].directory@),
            None => watched_by(all_views(watches@), descriptor as int, 0) is None,
        },
{
    let ghost all = all_views(watches@);
    let mut i: usize = 0;
    while i < watches.len()
        invariant
            i <= watches.len(),
            all == all_views(watches@),
            watched_by(all, descriptor as int, 0) == watched_by(all, descriptor as int, i as int),
        decreases watches.len() - i,
    {
        assert(all[i as int] == watches@[i as int]@);
        if watches[i].descriptor == descriptor {
            return Some(i);
        }
        i += 1;
    }
    assert(all.len() == watches@.len());
    None
}

/// What the bytes tell that were read from the watches.
pub fn read_events(bytes: &Vec<u8>, big_endian: bool, watches: &Vec<Watch>, bits: MaskBits) -> (r:
    Vec<DirectoryEvent>)
    ensures
        all_views(r@) == events_from(bytes@, 0, big_endian, all_views(watches@), bits),
{
    let ghost w = all_views(watches@);
    let ghost wanted = events_from(bytes@, 0, big_endian, w, bits);
    let mut out: Vec<DirectoryEvent> = Vec::new();
    let mut at: usize = 0;
    assert(all_views(out@) + wanted =~= wanted);
    while bytes.len() >= 16 && at <= bytes.len() - 16
        invariant
            at <= bytes@.len(),
            w == all_views(watches@),
            wanted == events_from(bytes@, 0, big_endian, w, bits),
            all_views(out@) + events_from(bytes@, at as int, big_endian, w, bits) == wanted,
        decreases bytes.len() - at,
    {
        let length: u32 = read_number(bytes, at + 12, big_endian);
        if length as usize > bytes.len() - 16 - at {
            assert(event_end(bytes@, at as int, big_endian) is None);
            assert(all_views(out@) + Seq::<(Seq<char>, bool)>::empty() =~= all_views(out@));
            return out;
        }
        let end: usize = at + 16 + length as usize;
        assert(event_end(bytes@, at as int, big_endian) == Some(end as int));
        let mask: u32 = read_number(bytes, at + 4, big_endian);
        let ghost told = event_at(bytes@, at as int, end as int, big_endian, w, bits);
        let ghost before = all_views(out@);
        match find_watch(watches, read_descriptor(bytes, at, big_endian)) {
            Some(k) => {
                if length > 0 && mask & bits.directory == 0 {
                    let name: String = raw(&read_name(bytes, at + 16, end));
                    let event: DirectoryEvent = DirectoryEvent {
                        path: join(watches[k].directory.as_str(), name.as_str()),
                        created: mask & bits.created != 0,
                    };
                    let ghost one = event@;
                    out.push(event);
                    assert(told =~= seq![one]);
                    assert(all_views(out@) =~= before + told);
                } else {
                    assert(before + told =~= before);
                }
            },
            None => {
                assert(before + told =~= before);
            },
        }
        assert(all_views(out@) + events_from(bytes@, end as int, big_endian, w, bits) =~= before + (
        told + events_from(bytes@, end as int, big_endian, w, bits)));
        at = end;
    }
    assert(event_end(bytes@, at as int, big_endian) is None);
    assert(all_views(out@) + Seq::<(Seq<char>, bool)>::empty() =~= all_views(out@));
    out
}

/// Whether a directory is watched already.
pub fn is_watched(watches: &Vec<Watch>, directory: &str) -> (r: bool)
    ensures
        r == exists|i: int|
            0 <= i < watches@.len() && same_path_text(
                #[trigger] watches@[i].directory@,
                directory@,
            ),
{
    let mut i: usize = 0;
    while i < watches.len()
        invariant
            i <= watches.len(),
            forall|j: int|
                0 <= j < i ==> !same_path_text(#[trigger] watches@[j].directory@, directory@),
        decreases watches.len() - i,
    {
        if same_path(watches[i].directory.as_str(), directory) {
            return true;
        }
        i += 1;
    }
    false
}

/// Whether a name is among names.
pub open spec fn names(list: Seq<Seq<char>>, name: Seq<char>) -> bool {
    exists|i: int| 0 <= i < list.len() && #[trigger] list[i] == name
}

/// Whether a name is among names.
pub fn knows(list: &Vec<String>, name: &str) -> (r: bool)
    ensures
        r == names(views(list@), name@),
{
    let ghost all = views(list@);
    let mut i: usize = 0;
    assert(all.len() == list@.len());
    while i < list.len()
        invariant
            i <= list.len(),
            all == views(list@),
            all.len() == list@.len(),
            forall|j: int| 0 <= j < i ==> #[trigger] all[j] != name@,
        decreases list.len() - i,
    {
        assert(all[i as int] == list@[i as int]@);
        if same(list[i].as_str(), name) {
            return true;
        }
        i += 1;
    }
    false
}

/// The events for those of the first `n` names of a directory that are not known.
pub open spec fn unknown_names(
    directory: Seq<char>,
    known: Seq<Seq<char>>,
    current: Seq<Seq<char>>,
    created: bool,
    n: int,
) -> Seq<(Seq<char>, bool)>
    decreases n,
{
    if n <= 0 {
        Seq::empty()
    } else if names(known, current[n - 1]) {
        unknown_names(directory, known, current, created, n - 1)
    } else {
        unknown_names(directory, known, current, created, n - 1).push(
            (joined_path(directory, current[n - 1]), created),
        )
    }
}

/// What a directory tells that holds `current`, where `known` was there before. `created` says
/// whether what was not there counts as new.
pub fn compare_names(
    directory: &str,
    known: &Vec<String>,
    current: &Vec<String>,
    created: bool,
) -> (r: Vec<DirectoryEvent>)
    ensures
        all_views(r@) == unknown_names(
            directory@,
            views(known@),
            views(current@),
            created,
            current@.len() as int,
        ),
{
    let ghost all = views(current@);
    let mut out: Vec<DirectoryEvent> = Vec::new();
    let mut i: usize = 0;
    assert(all_views(out@) =~= Seq::empty());
    while i < current.len()
        invariant
            i <= current.len(),
            all == views(current@),
            all_views(out@) == unknown_names(directory@, views(known@), all, created, i as int),
        decreases current.len() - i,
    {
        assert(all[i as int] == current@[i as int]@);
        let ghost before = all_views(out@);
        if !knows(known, current[i].as_str()) {
            let event: DirectoryEvent = DirectoryEvent {
                path: join(directory, current[i].as_str()),
                created,
            };
            let ghost one = event@;
            out.push(event);
            assert(all_views(out@) =~= before.push(one));
        }
        i += 1;
    }
    out
}

proof fn lemma_reported(
    directory: Seq<char>,
    known: Seq<Seq<char>>,
    current: Seq<Seq<char>>,
    name: Seq<char>,
    n: int,
)
    requires
        0 <= n <= current.len(),
        !names(known, name),
        exists|i: int| 0 <= i < n && current[i] == name,
    ensures
        unknown_names(directory, known, current, true, n).contains(
            (joined_path(directory, name), true),
        ),
    decreases n,
{
    let told = unknown_names(directory, known, current, true, n);
    let fewer = unknown_names(directory, known, current, true, n - 1);
    let event = (joined_path(directory, name), true);
    if current[n - 1] == name {
        assert(told == fewer.push(event));
        assert(told[told.len() - 1] == event);
    } else {
        lemma_reported(directory, known, current, name, n - 1);
        let k = choose|k: int| 0 <= k < fewer.len() && fewer[k] == event;
        assert(told[k] == event);
    }
}

proof fn lemma_nothing_new(directory: Seq<char>, known: Seq<Seq<char>>, n: int)
    requires
        0 <= n <= known.len(),
    ensures
        unknown_names(directory, known, known, true, n) == Seq::<(Seq<char>, bool)>::empty(),
    decreases n,
{
    if n > 0 {
        assert(names(known, known[n - 1]));
        lemma_nothing_new(directory, known, n - 1);
    }
}

/// A file that a directory did not hold before is reported as new, and it is reported once: when
/// it is known, the same directory tells nothing.
pub proof fn law_new_file_is_reported_once(
    directory: Seq<char>,
    known: Seq<Seq<char>>,
    current: Seq<Seq<char>>,
    name: Seq<char>,
)
    requires
        !names(known, name),
        names(current, name),
    ensures
        unknown_names(directory, known, current, true, current.len() as int).contains(
            (joined_path(directory, name), true),
        ),
        unknown_names(directory, current, current, true, current.len() as int) == Seq::<
            (Seq<char>, bool),
        >::empty(),
{
    lemma_reported(directory, known, current, name, current.len() as int);
    lemma_nothing_new(directory, current, current.len() as int);
}

/// A number of four bytes reads the same from either end: the bytes of one order, turned round, are
/// those of the other. The first byte of a little-endian number counts its ones.
pub proof fn law_byte_orders_mirror_each_other(bytes: Seq<u8>, at: int)
    requires
        0 <= at,
        at + 4 <= bytes.len(),
    ensures
        number_at(bytes, at, true) == number_at(bytes.subrange(at, at + 4).reverse(), 0, false),
        number_at(bytes, at, false) % 256 == bytes[at],
        number_at(bytes, at, false) / 256 % 256 == bytes[at + 1],
        number_at(bytes, at, false) / 65536 % 256 == bytes[at + 2],
        number_at(bytes, at, false) / 16777216 == bytes[at + 3],
        0 <= number_at(bytes, at, true) < 0x1_0000_0000,
        -0x8000_0000 <= signed(number_at(bytes, at, true)) < 0x8000_0000,
        (signed(number_at(bytes, at, true)) - number_at(bytes, at, true)) % 0x1_0000_0000 == 0,
{
    let turned = bytes.subrange(at, at + 4).reverse();
    assert(turned[0] == bytes[at + 3] && turned[1] == bytes[at + 2] && turned[2] == bytes[at + 1]
        && turned[3] == bytes[at]);
}

/// The name in an event ends before its first zero byte.
pub proof fn law_name_ends_at_a_zero(name: Seq<u8>, rest: Seq<u8>)
    requires
        forall|i: int| 0 <= i < name.len() ==> #[trigger] name[i] != 0,
    ensures
        before_zero(name) == name,
        before_zero(name + seq![0u8] + rest) == name,
    decreases name.len(),
{
    let whole = name + seq![0u8] + rest;
    if name.len() == 0 {
        assert(whole[0] == 0);
        assert(name =~= Seq::empty());
    } else {
        law_name_ends_at_a_zero(name.skip(1), rest);
        assert(whole[0] == name[0]);
        assert(whole.skip(1) =~= name.skip(1) + seq![0u8] + rest);
        assert(seq![name[0]] + name.skip(1) =~= name);
    }
}

/// The directory of a watch is that of the first watch with its number.
pub proof fn law_watch_is_known_by_its_number(
    watches: Seq<(i32, Seq<char>)>,
    descriptor: int,
    from: int,
)
    requires
        0 <= from,
    ensures
        match watched_by(watches, descriptor, from) {
            Some(directory) => exists|i: int|
                from <= i < watches.len() && (#[trigger] watches[i]).0 == descriptor && watches[i].1
                    == directory && forall|j: int|
                    from <= j < i ==> (#[trigger] watches[j]).0 != descriptor,
            None => forall|j: int|
                from <= j < watches.len() ==> (#[trigger] watches[j]).0 != descriptor,
        },
    decreases watches.len() - from,
{
    if from < watches.len() {
        if watches[from].0 == descriptor {
            assert(watches[from].1 == watched_by(watches, descriptor, from)->0);
        } else {
            law_watch_is_known_by_its_number(watches, descriptor, from + 1);
        }
    }
}

proof fn lemma_events_behind(
    front: Seq<u8>,
    bytes: Seq<u8>,
    at: int,
    big_endian: bool,
    watches: Seq<(i32, Seq<char>)>,
    bits: MaskBits,
)
    requires
        0 <= at <= bytes.len(),
    ensures
        events_from(front + bytes, front.len() + at, big_endian, watches, bits) == events_from(
            bytes,
            at,
            big_endian,
            watches,
            bits,
        ),
    decreases bytes.len() - at,
{
    let whole = front + bytes;
    let k = front.len() as int;
    if at + 16 <= bytes.len() {
        assert forall|i: int| 0 <= i < bytes.len() implies whole[k + i] == #[trigger] bytes[i] by {}
        assert(number_at(whole, k + at + 12, big_endian) == number_at(bytes, at + 12, big_endian));
        assert(number_at(whole, k + at + 4, big_endian) == number_at(bytes, at + 4, big_endian));
        assert(number_at(whole, k + at, big_endian) == number_at(bytes, at, big_endian));
        match event_end(bytes, at, big_endian) {
            Some(end) => {
                assert(event_end(whole, k + at, big_endian) == Some(k + end));
                if end > at {
                    lemma_events_behind(front, bytes, end, big_endian, watches, bits);
                    assert(whole.subrange(k + at + 16, k + end) =~= bytes.subrange(at + 16, end));
                }
            },
            None => {},
        }
    }
}

/// No event is lost: what is read in one piece with others is read as it is read alone. An event is
/// whole where its length says so.
pub proof fn law_events_are_read_one_after_another(
    event: Seq<u8>,
    rest: Seq<u8>,
    big_endian: bool,
    watches: Seq<(i32, Seq<char>)>,
    bits: MaskBits,
)
    requires
        event.len() >= 16,
        event.len() == 16 + number_at(event, 12, big_endian),
    ensures
        events_from(event + rest, 0, big_endian, watches, bits) == events_from(
            event,
            0,
            big_endian,
            watches,
            bits,
        ) + events_from(rest, 0, big_endian, watches, bits),
        events_from(event, 0, big_endian, watches, bits).len() <= 1,
{
    let whole = event + rest;
    let n = event.len() as int;
    assert forall|i: int| 0 <= i < n implies whole[i] == #[trigger] event[i] by {}
    assert(number_at(whole, 12, big_endian) == number_at(event, 12, big_endian));
    assert(number_at(whole, 4, big_endian) == number_at(event, 4, big_endian));
    assert(number_at(whole, 0, big_endian) == number_at(event, 0, big_endian));
    assert(event_end(whole, 0, big_endian) == Some(n));
    assert(event_end(event, 0, big_endian) == Some(n));
    assert(whole.subrange(16, n) =~= event.subrange(16, n));
    assert(event_end(event, n, big_endian) is None);
    let none = Seq::<(Seq<char>, bool)>::empty();
    assert(events_from(event, n, big_endian, watches, bits) =~= none);
    let own = event_at(event, 0, n, big_endian, watches, bits);
    assert(own + none =~= own);
    lemma_events_behind(event, rest, 0, big_endian, watches, bits);
}

/// An event tells of a file where it has a name, is of a directory that is watched, and is not of a
/// directory in it; the file is new where the event says that it was made.
pub proof fn law_event_tells_of_a_file(
    bytes: Seq<u8>,
    end: int,
    big_endian: bool,
    watches: Seq<(i32, Seq<char>)>,
    bits: MaskBits,
)
    ensures
        ({
            let told = event_at(bytes, 0, end, big_endian, watches, bits);
            let mask = number_at(bytes, 4, big_endian) as u32;
            let known = watched_by(watches, signed(number_at(bytes, 0, big_endian)), 0);
            &&& told.len() == 1 <==> known is Some && end > 16 && mask & bits.directory == 0
            &&& told.len() <= 1
            &&& told.len() == 1 ==> told[0].0 == joined_path(
                known->0,
                raw_text(before_zero(bytes.subrange(16, end))),
            ) && (told[0].1 <==> mask & bits.created != 0)
        }),
{
}

/// The files that are told of are exactly those that are there and were not known, in their order.
pub proof fn law_unknown_files_are_told_of(
    directory: Seq<char>,
    known: Seq<Seq<char>>,
    current: Seq<Seq<char>>,
    created: bool,
    n: int,
)
    requires
        0 <= n <= current.len(),
    ensures
        unknown_names(directory, known, current, created, n) == current.take(n).filter(
            |name: Seq<char>| !known.contains(name),
        ).map(|i: int, name: Seq<char>| (joined_path(directory, name), created)),
    decreases n,
{
    reveal(Seq::filter);
    let fresh = |name: Seq<char>| !known.contains(name);
    let told = |i: int, name: Seq<char>| (joined_path(directory, name), created);
    let kept = current.take(n).filter(fresh);
    if n > 0 {
        law_unknown_files_are_told_of(directory, known, current, created, n - 1);
        assert(current.take(n).drop_last() =~= current.take(n - 1));
        assert(current.take(n).last() == current[n - 1]);
        let before = current.take(n - 1).filter(fresh);
        assert(names(known, current[n - 1]) == known.contains(current[n - 1]));
        if fresh(current[n - 1]) {
            assert(kept == before.push(current[n - 1]));
            assert(kept.map(told) =~= before.map(told).push(
                (joined_path(directory, current[n - 1]), created),
            ));
        }
    } else {
        assert(kept.len() == 0);
        assert(kept.map(told) =~= Seq::<(Seq<char>, bool)>::empty());
    }
}

} // verus!
