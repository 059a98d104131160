//! Text primitives: searching, splitting, trimming, numbers and padding.
//!
//! Every string is modelled by the sequence of its characters.

use vstd::prelude::*;

verus! {

/// `String::push` appends one character to the end of the string.
pub assume_specification[ String::push ](s: &mut String, c: char)
    ensures
        final(s)@ == old(s)@.push(c),
;

/// The characters of each string of a list.
pub open spec fn views(v: Seq<String>) -> Seq<Seq<char>> {
    all_views(v)
}

/// The characters of an optional string.
pub open spec fn opt_view(s: Option<String>) -> Option<Seq<char>> {
    match s {
        Some(t) => Some(t@),
        None => None,
    }
}

/// Whether `n` stands in `h` at position `i`.
pub open spec fn occurs_at(h: Seq<char>, n: Seq<char>, i: int) -> bool {
    &&& 0 <= i
    &&& i + n.len() <= h.len()
    &&& h.subrange(i, i + n.len()) == n
}

/// Whether `n` stands anywhere in `h`.
pub open spec fn occurs(h: Seq<char>, n: Seq<char>) -> bool {
    exists|i: int| occurs_at(h, n, i)
}

/// The first position at or after `from` where `n` stands in `h`.
pub open spec fn first_occurrence(h: Seq<char>, n: Seq<char>, from: int) -> Option<int>
    decreases h.len() - from + 1,
{
    if from < 0 || from + n.len() > h.len() {
        None
    } else if occurs_at(h, n, from) {
        Some(from)
    } else {
        first_occurrence(h, n, from + 1)
    }
}

/// Whether `h` begins with `n`.
pub open spec fn begins_with(h: Seq<char>, n: Seq<char>) -> bool {
    occurs_at(h, n, 0)
}

/// Whether `h` ends with `n`.
pub open spec fn finishes_with(h: Seq<char>, n: Seq<char>) -> bool {
    occurs_at(h, n, h.len() - n.len())
}

/// The parts of `s` from position `start` on, cut at each occurrence of `sep`.
pub open spec fn pieces_from(s: Seq<char>, sep: Seq<char>, start: int) -> Seq<Seq<char>>
    decreases s.len() - start,
{
    match first_occurrence(s, sep, start) {
        Some(i) => if sep.len() > 0 && start <= i && i + sep.len() <= s.len() {
            seq![s.subrange(start, i)] + pieces_from(s, sep, i + sep.len())
        } else {
            seq![s.subrange(start, s.len() as int)]
        },
        None => seq![s.subrange(start, s.len() as int)],
    }
}

/// The parts of `s` between the occurrences of `sep`.
pub open spec fn pieces(s: Seq<char>, sep: Seq<char>) -> Seq<Seq<char>> {
    pieces_from(s, sep, 0)
}

/// What stands before and after the first occurrence of `sep`.
pub open spec fn cut_at(s: Seq<char>, sep: Seq<char>) -> Option<(Seq<char>, Seq<char>)> {
    match first_occurrence(s, sep, 0) {
        Some(i) => Some((s.subrange(0, i), s.subrange(i + sep.len(), s.len() as int))),
        None => None,
    }
}

pub proof fn lemma_first_occurrence(h: Seq<char>, n: Seq<char>, from: int)
    requires
        0 <= from,
    ensures
        match first_occurrence(h, n, from) {
            Some(i) => from <= i && occurs_at(h, n, i) && forall|j: int|
                from <= j < i ==> !occurs_at(h, n, j),
            None => forall|j: int| from <= j ==> !occurs_at(h, n, j),
        },
    decreases h.len() - from + 1,
{
    if from + n.len() > h.len() {
    } else if occurs_at(h, n, from) {
    } else {
        lemma_first_occurrence(h, n, from + 1);
    }
}

/// A position is the first occurrence exactly when the text stands there and nowhere earlier.
pub proof fn lemma_first_occurrence_is(h: Seq<char>, n: Seq<char>, from: int, i: int)
    requires
        0 <= from <= i,
        occurs_at(h, n, i),
        forall|j: int| from <= j < i ==> !occurs_at(h, n, j),
    ensures
        first_occurrence(h, n, from) == Some(i),
    decreases i - from,
{
    if from < i {
        lemma_first_occurrence_is(h, n, from + 1, i);
    }
}

/// The model of an optional borrowed string.
pub open spec fn opt_str(s: Option<&str>) -> Option<Seq<char>> {
    match s {
        Some(t) => Some(t@),
        None => None,
    }
}

/// A copy of an optional string.
pub fn copy_opt(s: &Option<String>) -> (r: Option<String>)
    ensures
        opt_view(r) == opt_view(*s),
{
    match s {
        Some(t) => Some(t.clone()),
        None => None,
    }
}

/// The models of a sequence of values.
pub open spec fn all_views<T: View>(v: Seq<T>) -> Seq<T::V> {
    Seq::new(v.len(), |i: int| v[i]@)
}

/// Whether `sep`, put behind `a`, first stands right behind `a`.
pub open spec fn ends_cleanly(a: Seq<char>, sep: Seq<char>) -> bool {
    first_occurrence(a + sep, sep, 0) == Some(a.len() as int)
}

/// A text that holds no character of a separator's start ends cleanly before it.
pub proof fn lemma_ends_cleanly(a: Seq<char>, sep: Seq<char>)
    requires
        sep.len() > 0,
        forall|i: int| 0 <= i < a.len() ==> a[i] != sep[0],
    ensures
        ends_cleanly(a, sep),
{
    let h = a + sep;
    assert(h.subrange(a.len() as int, (a.len() + sep.len()) as int) =~= sep);
    assert forall|j: int| 0 <= j < a.len() implies !occurs_at(h, sep, j) by {
        if occurs_at(h, sep, j) {
            assert(h.subrange(j, j + sep.len())[0] == h[j]);
        }
    }
    lemma_first_occurrence_is(h, sep, 0, a.len() as int);
}

proof fn lemma_first_occurrence_behind(p: Seq<char>, rest: Seq<char>, n: Seq<char>, from: int)
    requires
        0 <= from,
    ensures
        first_occurrence(p + rest, n, p.len() + from) == (match first_occurrence(rest, n, from) {
            Some(i) => Some(p.len() + i),
            None => None::<int>,
        }),
    decreases rest.len() - from + 1,
{
    if from + n.len() <= rest.len() {
        assert((p + rest).subrange(p.len() + from, p.len() + from + n.len()) =~= rest.subrange(
            from,
            from + n.len(),
        ));
        if !occurs_at(rest, n, from) {
            lemma_first_occurrence_behind(p, rest, n, from + 1);
        }
    }
}

proof fn lemma_pieces_behind(p: Seq<char>, rest: Seq<char>, sep: Seq<char>, from: int)
    requires
        0 <= from <= rest.len(),
    ensures
        pieces_from(p + rest, sep, p.len() + from) == pieces_from(rest, sep, from),
    decreases rest.len() - from,
{
    lemma_first_occurrence_behind(p, rest, sep, from);
    assert((p + rest).subrange(p.len() + from, (p + rest).len() as int) =~= rest.subrange(
        from,
        rest.len() as int,
    ));
    match first_occurrence(rest, sep, from) {
        Some(i) => {
            if sep.len() > 0 && from <= i && i + sep.len() <= rest.len() {
                assert((p + rest).subrange(p.len() + from, p.len() + i) =~= rest.subrange(from, i));
                lemma_pieces_behind(p, rest, sep, i + sep.len());
            }
        },
        None => {},
    }
}

/// A clean first part is the first piece, and what stands behind its separator gives the others.
pub proof fn lemma_pieces_step(a: Seq<char>, sep: Seq<char>, rest: Seq<char>)
    requires
        sep.len() > 0,
        ends_cleanly(a, sep),
    ensures
        pieces(a + sep + rest, sep) == seq![a] + pieces(rest, sep),
        cut_at(a + sep + rest, sep) == Some((a, rest)),
{
    let s = a + sep + rest;
    let h = a + sep;
    lemma_first_occurrence(h, sep, 0);
    assert(s.subrange(a.len() as int, (a.len() + sep.len()) as int) =~= sep);
    assert forall|j: int| 0 <= j < a.len() implies !occurs_at(s, sep, j) by {
        assert(!occurs_at(h, sep, j));
        assert(s.subrange(j, j + sep.len()) =~= h.subrange(j, j + sep.len()));
    }
    lemma_first_occurrence_is(s, sep, 0, a.len() as int);
    assert(s.subrange(0, a.len() as int) =~= a);
    assert(s.subrange(h.len() as int, s.len() as int) =~= rest);
    lemma_pieces_behind(h, rest, sep, 0);
}

/// The first of several pieces ends cleanly, and the others are those of what stands behind it.
pub proof fn lemma_first_piece(s: Seq<char>, sep: Seq<char>) -> (rest: Seq<char>)
    requires
        sep.len() > 0,
        pieces(s, sep).len() > 1,
    ensures
        ends_cleanly(pieces(s, sep)[0], sep),
        s == pieces(s, sep)[0] + sep + rest,
        pieces(s, sep) == seq![pieces(s, sep)[0]] + pieces(rest, sep),
{
    lemma_first_occurrence(s, sep, 0);
    let i = first_occurrence(s, sep, 0)->0;
    let a = s.subrange(0, i);
    let rest = s.subrange(i + sep.len(), s.len() as int);
    let h = a + sep;
    assert(s =~= h + rest) by {
        assert(s.subrange(i, i + sep.len()) == sep);
        assert forall|j: int| 0 <= j < s.len() implies s[j] == (h + rest)[j] by {
            if i <= j < i + sep.len() {
                assert(s.subrange(i, i + sep.len())[j - i] == s[j]);
            }
        }
    }
    assert(h.subrange(i, i + sep.len()) =~= sep);
    assert forall|j: int| 0 <= j < i implies !occurs_at(h, sep, j) by {
        if occurs_at(h, sep, j) {
            assert(s.subrange(j, j + sep.len()) =~= h.subrange(j, j + sep.len()));
            assert(occurs_at(s, sep, j));
        }
    }
    lemma_first_occurrence_is(h, sep, 0, i);
    lemma_pieces_behind(h, rest, sep, 0);
    rest
}

/// A text without its separator is one piece.
pub proof fn lemma_pieces_last(a: Seq<char>, sep: Seq<char>)
    requires
        !occurs(a, sep),
    ensures
        pieces(a, sep) == seq![a],
        cut_at(a, sep) is None,
{
    lemma_first_occurrence(a, sep, 0);
    assert(a.subrange(0, a.len() as int) =~= a);
}

/// The characters of a string as a vector.
pub fn chars_of(s: &str) -> (v: Vec<char>)
    ensures
        v@ == s@,
{
    let mut out: Vec<char> = Vec::new();
    for c in it: s.chars()
        invariant
            it.seq() == s@,
            out@ == s@.take(it.index() as int),
    {
        out.push(c);
        assert(s@.take(it.index() as int + 1) =~= s@.take(it.index() as int).push(c));
    }
    assert(s@.take(s@.len() as int) =~= s@);
    out
}

/// The string made of `v[from..to]`.
pub fn text_of(v: &Vec<char>, from: usize, to: usize) -> (s: String)
    requires
        from <= to <= v@.len(),
    ensures
        s@ == v@.subrange(from as int, to as int),
{
    let mut out: String = String::new();
    let mut i: usize = from;
    while i < to
        invariant
            from <= i <= to <= v@.len(),
            out@ == v@.subrange(from as int, i as int),
        decreases to - i,
    {
        out.push(v[i]);
        assert(v@.subrange(from as int, i + 1) =~= v@.subrange(from as int, i as int).push(v@[i as int]));
        i += 1;
    }
    out
}

/// Whether `n` stands in `h` at `i`.
pub fn matches_at(h: &Vec<char>, n: &Vec<char>, i: usize) -> (b: bool)
    ensures
        b == occurs_at(h@, n@, i as int),
{
    if i > h.len() || n.len() > h.len() - i {
        return false;
    }
    let mut k: usize = 0;
    while k < n.len()
        invariant
            i + n.len() <= h.len(),
            k <= n.len(),
            forall|j: int| 0 <= j < k ==> h@[i + j] == n@[j],
        decreases n@.len() - k,
    {
        if h[i + k] != n[k] {
            assert(h@.subrange(i as int, i + n@.len())[k as int] != n@[k as int]);
            return false;
        }
        k += 1;
    }
    assert(h@.subrange(i as int, i + n@.len()) =~= n@);
    true
}

/// The first position at or after `from` where `n` stands in `h`.
pub fn find_from(h: &Vec<char>, n: &Vec<char>, from: usize) -> (r: Option<usize>)
    ensures
        match r {
            Some(i) => first_occurrence(h@, n@, from as int) == Some(i as int) && from <= i
                && i + n.len() <= h.len(),
            None => first_occurrence(h@, n@, from as int) is None,
        },
{
    let mut i: usize = from;
    while i <= h.len() && n.len() <= h.len() - i
        invariant
            from <= i,
            first_occurrence(h@, n@, from as int) == first_occurrence(h@, n@, i as int),
        decreases h@.len() + 1 - i,
    {
        if matches_at(h, n, i) {
            return Some(i);
        }
        assert(i < h.len()) by {
            if i == h.len() {
                assert(h@.subrange(i as int, i + n@.len()) =~= n@);
            }
        }
        i += 1;
    }
    None
}


/// Whether the two strings hold the same characters.
pub fn same(a: &str, b: &str) -> (r: bool)
    ensures
        r == (a@ == b@),
{
    let x: Vec<char> = chars_of(a);
    let y: Vec<char> = chars_of(b);
    if x.len() != y.len() {
        return false;
    }
    let r: bool = matches_at(&x, &y, 0);
    assert(a@.subrange(0, a@.len() as int) =~= a@);
    r
}

/// Whether `h` begins with `n`.
pub fn starts_with(h: &str, n: &str) -> (r: bool)
    ensures
        r == begins_with(h@, n@),
{
    matches_at(&chars_of(h), &chars_of(n), 0)
}

/// Whether `h` ends with `n`.
pub fn ends_with(h: &str, n: &str) -> (r: bool)
    ensures
        r == finishes_with(h@, n@),
{
    let x: Vec<char> = chars_of(h);
    let y: Vec<char> = chars_of(n);
    if y.len() > x.len() {
        return false;
    }
    matches_at(&x, &y, x.len() - y.len())
}

/// Whether `n` stands anywhere in `h`.
pub fn contains(h: &str, n: &str) -> (r: bool)
    ensures
        r == occurs(h@, n@),
{
    let found: Option<usize> = find_from(&chars_of(h), &chars_of(n), 0);
    proof {
        lemma_first_occurrence(h@, n@, 0);
    }
    found.is_some()
}

/// What stands before and after the first occurrence of `sep`.
pub fn split_once(s: &str, sep: &str) -> (r: Option<(String, String)>)
    ensures
        match r {
            Some(p) => cut_at(s@, sep@) == Some((p.0@, p.1@)),
            None => cut_at(s@, sep@) is None,
        },
{
    let x: Vec<char> = chars_of(s);
    let y: Vec<char> = chars_of(sep);
    match find_from(&x, &y, 0) {
        Some(i) => Some((text_of(&x, 0, i), text_of(&x, i + y.len(), x.len()))),
        None => None,
    }
}

/// The parts of `s` between the occurrences of a non-empty separator.
pub fn split(s: &str, sep: &str) -> (r: Vec<String>)
    requires
        sep@.len() > 0,
    ensures
        views(r@) == pieces(s@, sep@),
        r@.len() > 0,
{
    let x: Vec<char> = chars_of(s);
    let y: Vec<char> = chars_of(sep);
    let mut out: Vec<String> = Vec::new();
    let mut start: usize = 0;
    assert(views(out@) + pieces_from(s@, sep@, 0) =~= pieces(s@, sep@));
    loop
        invariant
            x@ == s@,
            y@ == sep@,
            sep@.len() > 0,
            start <= x.len(),
            views(out@) + pieces_from(s@, sep@, start as int) == pieces(s@, sep@),
        decreases x.len() - start,
    {
        match find_from(&x, &y, start) {
            Some(i) => {
                let ghost before = out@;
                let piece: String = text_of(&x, start, i);
                out.push(piece);
                assert(views(out@) =~= views(before).push(piece@));
                start = i + y.len();
                assert(views(out@) + pieces_from(s@, sep@, start as int) =~= pieces(s@, sep@));
            },
            None => {
                let ghost before = out@;
                let piece: String = text_of(&x, start, x.len());
                out.push(piece);
                assert(views(out@) =~= views(before).push(piece@));
                assert(views(out@) =~= pieces(s@, sep@));
                return out;
            },
        }
    }
}

/// Whether a text holds no line feed.
pub open spec fn one_line(s: Seq<char>) -> bool {
    forall|i: int| 0 <= i < s.len() ==> #[trigger] s[i] != '\n'
}

/// Texts of one line make one line together.
pub broadcast proof fn lemma_one_line(a: Seq<char>, b: Seq<char>)
    requires
        one_line(a),
        one_line(b),
    ensures
        #[trigger] one_line(a + b),
{
}

proof fn lemma_joined_front(list: Seq<Seq<char>>, sep: Seq<char>)
    requires
        list.len() >= 2,
    ensures
        joined(list, sep) == list[0] + sep + joined(list.subrange(1, list.len() as int), sep),
    decreases list.len(),
{
    let rest = list.subrange(1, list.len() as int);
    if list.len() == 2 {
        assert(list.drop_last().len() == 1);
        assert(joined(list.drop_last(), sep) == list[0]);
        assert(joined(rest, sep) == list[1]);
    } else {
        lemma_joined_front(list.drop_last(), sep);
        let inner = list.drop_last().subrange(1, list.len() - 1);
        assert(inner =~= rest.drop_last());
        assert(joined(list, sep) =~= list[0] + sep + joined(rest, sep));
    }
}

/// Splitting undoes joining: lines that are joined by line feeds are the lines that come out again.
pub proof fn law_splitting_undoes_joining(list: Seq<Seq<char>>)
    requires
        list.len() > 0,
        forall|i: int| 0 <= i < list.len() ==> one_line(#[trigger] list[i]),
    ensures
        pieces(joined(list, "\n"@), "\n"@) == list,
    decreases list.len(),
{
    reveal_strlit("\n");
    let sep = "\n"@;
    assert(one_line(list[0]));
    if list.len() == 1 {
        assert(!occurs(list[0], sep)) by {
            assert forall|i: int| !occurs_at(list[0], sep, i) by {
                if occurs_at(list[0], sep, i) {
                    assert(list[0].subrange(i, i + 1)[0] == list[0][i]);
                }
            }
        }
        lemma_pieces_last(list[0], sep);
        assert(seq![list[0]] =~= list);
    } else {
        let rest = list.subrange(1, list.len() as int);
        lemma_joined_front(list, sep);
        lemma_ends_cleanly(list[0], sep);
        lemma_pieces_step(list[0], sep, joined(rest, sep));
        assert forall|i: int| 0 <= i < rest.len() implies one_line(#[trigger] rest[i]) by {
            assert(rest[i] == list[i + 1]);
        }
        law_splitting_undoes_joining(rest);
        assert(seq![list[0]] + rest =~= list);
    }
}

/// The strings of `list` with `sep` between neighbours.
pub open spec fn joined(list: Seq<Seq<char>>, sep: Seq<char>) -> Seq<char>
    decreases list.len(),
{
    if list.len() == 0 {
        Seq::empty()
    } else if list.len() == 1 {
        list[0]
    } else {
        joined(list.drop_last(), sep) + sep + list.last()
    }
}

/// The strings of `list` with `sep` between neighbours.
pub fn join(list: &Vec<String>, sep: &str) -> (r: String)
    ensures
        r@ == joined(views(list@), sep@),
{
    let mut out: String = String::new();
    let mut i: usize = 0;
    while i < list.len()
        invariant
            i <= list.len(),
            out@ == joined(views(list@).take(i as int), sep@),
        decreases list.len() - i,
    {
        if i > 0 {
            out.append(sep);
        }
        out.append(list[i].as_str());
        proof {
            let t = views(list@).take(i + 1);
            assert(t.drop_last() =~= views(list@).take(i as int));
            assert(t.last() == list@[i as int]@);
            if i == 0 {
                assert(out@ =~= t[0]);
            }
        }
        i += 1;
    }
    assert(views(list@).take(list@.len() as int) =~= views(list@));
    out
}

/// `s` with every occurrence of `n` replaced by `with`, found from left to right.
pub open spec fn replaced(s: Seq<char>, n: Seq<char>, with: Seq<char>) -> Seq<char> {
    joined(pieces(s, n), with)
}

/// How many times `n` stands in `s`, counted from left to right without overlap.
pub open spec fn occurrences(s: Seq<char>, n: Seq<char>) -> int {
    pieces(s, n).len() - 1
}

/// `s` with every occurrence of a non-empty `n` replaced by `with`.
pub fn replace(s: &str, n: &str, with: &str) -> (r: String)
    requires
        n@.len() > 0,
    ensures
        r@ == replaced(s@, n@, with@),
{
    join(&split(s, n), with)
}

/// How many times a non-empty `n` stands in `s` without overlap.
pub fn count_matches(s: &str, n: &str) -> (r: usize)
    requires
        n@.len() > 0,
    ensures
        r == occurrences(s@, n@),
        r < usize::MAX,
{
    let parts: Vec<String> = split(s, n);
    assert(views(parts@).len() == parts@.len());
    parts.len() - 1
}

/// `s` without one trailing carriage return.
pub open spec fn without_return(s: Seq<char>) -> Seq<char> {
    if s.len() > 0 && s.last() == '\r' {
        s.drop_last()
    } else {
        s
    }
}

/// The lines of `s` from position `start` on: cut after each line feed, a carriage return before
/// the line feed dropped, no empty line after a final line feed.
pub open spec fn lines_from(s: Seq<char>, start: int) -> Seq<Seq<char>>
    decreases s.len() - start,
{
    if start < 0 || start >= s.len() {
        Seq::empty()
    } else {
        match first_occurrence(s, seq!['\n'], start) {
            Some(i) => if start <= i < s.len() {
                seq![without_return(s.subrange(start, i))] + lines_from(s, i + 1)
            } else {
                seq![s.subrange(start, s.len() as int)]
            },
            None => seq![s.subrange(start, s.len() as int)],
        }
    }
}

/// The lines of `s`.
pub open spec fn line_seq(s: Seq<char>) -> Seq<Seq<char>> {
    lines_from(s, 0)
}

/// The lines of `s`.
pub fn lines(s: &str) -> (r: Vec<String>)
    ensures
        views(r@) == line_seq(s@),
{
    let x: Vec<char> = chars_of(s);
    let mut y: Vec<char> = Vec::new();
    y.push('\n');
    assert(y@ =~= seq!['\n']);
    let mut out: Vec<String> = Vec::new();
    let mut start: usize = 0;
    assert(views(out@) + lines_from(s@, 0) =~= line_seq(s@));
    while start < x.len()
        invariant
            x@ == s@,
            y@ == seq!['\n'],
            start <= x.len(),
            views(out@) + lines_from(s@, start as int) == line_seq(s@),
        decreases x.len() - start,
    {
        let ghost before = out@;
        match find_from(&x, &y, start) {
            Some(i) => {
                let end: usize = if i > start && x[i - 1] == '\r' {
                    i - 1
                } else {
                    i
                };
                let piece: String = text_of(&x, start, end);
                out.push(piece);
                assert(piece@ =~= without_return(s@.subrange(start as int, i as int)));
                assert(views(out@) =~= views(before).push(piece@));
                start = i + 1;
                assert(views(out@) + lines_from(s@, start as int) =~= line_seq(s@));
            },
            None => {
                let piece: String = text_of(&x, start, x.len());
                out.push(piece);
                assert(views(out@) =~= views(before).push(piece@));
                start = x.len();
                assert(views(out@) + lines_from(s@, start as int) =~= line_seq(s@));
            },
        }
    }
    assert(views(out@) + lines_from(s@, start as int) =~= views(out@));
    out
}

/// Classes of characters that are trimmed.
#[derive(Clone, Copy, Debug, PartialEq, Eq, Structural)]
pub enum CharClass {
    /// Unicode white space.
    Space,
    /// Carriage return and line feed.
    Newline,
    /// Carriage return alone.
    Return,
}

/// Whether a character has the Unicode property White_Space.
pub open spec fn is_space(c: char) -> bool {
    ||| '\u{9}' <= c <= '\u{d}'
    ||| c == '\u{20}'
    ||| c == '\u{85}'
    ||| c == '\u{a0}'
    ||| c == '\u{1680}'
    ||| '\u{2000}' <= c <= '\u{200a}'
    ||| c == '\u{2028}'
    ||| c == '\u{2029}'
    ||| c == '\u{202f}'
    ||| c == '\u{205f}'
    ||| c == '\u{3000}'
}

/// Whether a character belongs to a class.
pub open spec fn in_class(c: char, class: CharClass) -> bool {
    match class {
        CharClass::Space => is_space(c),
        CharClass::Newline => c == '\r' || c == '\n',
        CharClass::Return => c == '\r',
    }
}

fn belongs(c: char, class: CharClass) -> (r: bool)
    ensures
        r == in_class(c, class),
{
    match class {
        CharClass::Space => ('\u{9}' <= c && c <= '\u{d}') || c == '\u{20}' || c == '\u{85}' || c
            == '\u{a0}' || c == '\u{1680}' || ('\u{2000}' <= c && c <= '\u{200a}') || c
            == '\u{2028}' || c == '\u{2029}' || c == '\u{202f}' || c == '\u{205f}' || c
            == '\u{3000}',
        CharClass::Newline => c == '\r' || c == '\n',
        CharClass::Return => c == '\r',
    }
}

/// `s` without the characters of the class at its start.
pub open spec fn trimmed_start(s: Seq<char>, class: CharClass) -> Seq<char>
    decreases s.len(),
{
    if s.len() > 0 && in_class(s[0], class) {
        trimmed_start(s.subrange(1, s.len() as int), class)
    } else {
        s
    }
}

/// `s` without the characters of the class at its end.
pub open spec fn trimmed_end(s: Seq<char>, class: CharClass) -> Seq<char>
    decreases s.len(),
{
    if s.len() > 0 && in_class(s.last(), class) {
        trimmed_end(s.drop_last(), class)
    } else {
        s
    }
}

/// `s` without white space at either end.
pub open spec fn trimmed(s: Seq<char>) -> Seq<char> {
    trimmed_end(trimmed_start(s, CharClass::Space), CharClass::Space)
}

/// `s` without the characters of the class at its start.
pub fn trim_start(s: &str, class: CharClass) -> (r: String)
    ensures
        r@ == trimmed_start(s@, class),
{
    let x: Vec<char> = chars_of(s);
    let mut i: usize = 0;
    assert(s@.subrange(0, s@.len() as int) =~= s@);
    while i < x.len() && belongs(x[i], class)
        invariant
            x@ == s@,
            i <= x.len(),
            trimmed_start(s@.subrange(i as int, s@.len() as int), class) == trimmed_start(s@, class),
        decreases x.len() - i,
    {
        assert(s@.subrange(i as int, s@.len() as int).subrange(1, s@.len() - i) =~= s@.subrange(
            i + 1,
            s@.len() as int,
        ));
        i += 1;
    }
    text_of(&x, i, x.len())
}

/// `s` without the characters of the class at its end.
pub fn trim_end(s: &str, class: CharClass) -> (r: String)
    ensures
        r@ == trimmed_end(s@, class),
{
    let x: Vec<char> = chars_of(s);
    let mut i: usize = x.len();
    assert(s@.subrange(0, s@.len() as int) =~= s@);
    while i > 0 && belongs(x[i - 1], class)
        invariant
            x@ == s@,
            i <= x.len(),
            trimmed_end(s@.subrange(0, i as int), class) == trimmed_end(s@, class),
        decreases i,
    {
        assert(s@.subrange(0, i as int).drop_last() =~= s@.subrange(0, i - 1));
        i -= 1;
    }
    text_of(&x, 0, i)
}

/// `s` without white space at either end.
pub fn trim(s: &str) -> (r: String)
    ensures
        r@ == trimmed(s@),
{
    trim_end(trim_start(s, CharClass::Space).as_str(), CharClass::Space)
}

/// The lower-case letter of an ASCII capital, any other character itself.
pub open spec fn ascii_lower(c: char) -> char {
    if 'A' <= c <= 'Z' {
        (c as u8 + 32) as char
    } else {
        c
    }
}

/// `s` with ASCII capitals made small.
pub open spec fn lowered(s: Seq<char>) -> Seq<char> {
    Seq::new(s.len(), |i: int| ascii_lower(s[i]))
}

/// `s` with ASCII capitals made small.
pub fn to_ascii_lowercase(s: &str) -> (r: String)
    ensures
        r@ == lowered(s@),
{
    let x: Vec<char> = chars_of(s);
    let mut out: String = String::new();
    let mut i: usize = 0;
    while i < x.len()
        invariant
            x@ == s@,
            i <= x.len(),
            out@ == lowered(s@).take(i as int),
        decreases x.len() - i,
    {
        let c: char = x[i];
        if 'A' <= c && c <= 'Z' {
            out.push((c as u8 + 32) as char);
        } else {
            out.push(c);
        }
        assert(lowered(s@).take(i + 1) =~= lowered(s@).take(i as int).push(ascii_lower(c)));
        i += 1;
    }
    assert(lowered(s@).take(s@.len() as int) =~= lowered(s@));
    out
}

/// `n` copies of a character.
pub open spec fn repeated(c: char, n: nat) -> Seq<char> {
    Seq::new(n, |i: int| c)
}

/// `s` with spaces behind it up to `width` characters.
pub open spec fn padded_right(s: Seq<char>, width: int) -> Seq<char> {
    if s.len() < width {
        s + repeated(' ', (width - s.len()) as nat)
    } else {
        s
    }
}

/// `s` with copies of `c` before it up to `width` characters.
pub open spec fn padded_left(s: Seq<char>, c: char, width: int) -> Seq<char> {
    if s.len() < width {
        repeated(c, (width - s.len()) as nat) + s
    } else {
        s
    }
}

/// A string of `n` copies of a character.
pub fn repeat(c: char, n: usize) -> (r: String)
    ensures
        r@ == repeated(c, n as nat),
{
    let mut out: String = String::new();
    let mut i: usize = 0;
    while i < n
        invariant
            i <= n,
            out@ == repeated(c, i as nat),
        decreases n - i,
    {
        out.push(c);
        assert(repeated(c, (i + 1) as nat) =~= repeated(c, i as nat).push(c));
        i += 1;
    }
    out
}

/// `s` with spaces behind it up to `width` characters.
pub fn pad_right(s: &str, width: usize) -> (r: String)
    ensures
        r@ == padded_right(s@, width as int),
{
    let n: usize = chars_of(s).len();
    let mut out: String = s.to_owned();
    if n < width {
        out.append(repeat(' ', width - n).as_str());
    }
    out
}

/// `s` with copies of `c` before it up to `width` characters.
pub fn pad_left(s: &str, c: char, width: usize) -> (r: String)
    ensures
        r@ == padded_left(s@, c, width as int),
{
    let n: usize = chars_of(s).len();
    if n < width {
        let mut out: String = repeat(c, width - n);
        out.append(s);
        out
    } else {
        s.to_owned()
    }
}

/// The decimal digit of a number below ten.
pub open spec fn digit(d: nat) -> char {
    (48 + d) as char
}

/// A number in decimal digits.
pub open spec fn decimal(n: nat) -> Seq<char>
    decreases n,
{
    if n < 10 {
        seq![digit(n)]
    } else {
        decimal(n / 10).push(digit(n % 10))
    }
}

/// Whether every character is an ASCII digit.
pub open spec fn all_digits(s: Seq<char>) -> bool {
    forall|i: int| 0 <= i < s.len() ==> '0' <= #[trigger] s[i] <= '9'
}

/// The number that a sequence of digits stands for.
pub open spec fn digits_value(s: Seq<char>) -> nat
    decreases s.len(),
{
    if s.len() == 0 {
        0
    } else {
        (digits_value(s.drop_last()) * 10 + (s.last() as int - 48)) as nat
    }
}

/// The digits of a number text, without one leading plus sign.
pub open spec fn unsigned_digits(s: Seq<char>) -> Seq<char> {
    if s.len() > 0 && s[0] == '+' {
        s.subrange(1, s.len() as int)
    } else {
        s
    }
}

/// The number in `s`: digits, at least one, after an optional plus sign, at most `max`.
pub open spec fn parsed(s: Seq<char>, max: nat) -> Option<nat> {
    let d = unsigned_digits(s);
    if d.len() > 0 && all_digits(d) && digits_value(d) <= max {
        Some(digits_value(d))
    } else {
        None
    }
}

proof fn lemma_prefix_value(s: Seq<char>, i: int)
    requires
        all_digits(s),
        0 <= i <= s.len(),
    ensures
        digits_value(s.take(i)) <= digits_value(s),
    decreases s.len() - i,
{
    if i < s.len() {
        assert(s.take(i + 1).drop_last() =~= s.take(i));
        assert(s.take(i + 1).last() == s[i]);
        lemma_prefix_value(s, i + 1);
    } else {
        assert(s.take(i) =~= s);
    }
}

/// The digits of a number, at least one of them, never a plus sign first.
pub proof fn lemma_decimal(n: nat)
    ensures
        all_digits(decimal(n)),
        decimal(n).len() > 0,
        digits_value(decimal(n)) == n,
    decreases n,
{
    if n >= 10 {
        lemma_decimal(n / 10);
        assert(decimal(n).drop_last() =~= decimal(n / 10));
        assert(n == (n / 10) * 10 + n % 10);
    } else {
        assert(decimal(n).drop_last() =~= Seq::<char>::empty());
        assert(digits_value(decimal(n).drop_last()) == 0);
    }
}

/// A number written in decimal is read back as the same number.
pub proof fn law_decimal_round_trip(n: nat, max: nat)
    requires
        n <= max,
    ensures
        parsed(decimal(n), max) == Some(n),
{
    lemma_decimal(n);
    assert('0' <= decimal(n)[0] <= '9');
}

/// A number in decimal digits.
pub fn to_decimal(n: u64) -> (r: String)
    ensures
        r@ == decimal(n as nat),
    decreases n,
{
    let last: char = (48 + (n % 10) as u8) as char;
    if n < 10 {
        let mut out: String = String::new();
        out.push(last);
        assert(out@ =~= decimal(n as nat));
        out
    } else {
        let mut out: String = to_decimal(n / 10);
        out.push(last);
        out
    }
}

/// The decimal digits of a wide number.
pub fn to_wide_decimal(n: u128) -> (r: String)
    ensures
        r@ == decimal(n as nat),
    decreases n,
{
    let last: char = (48 + (n % 10) as u8) as char;
    if n < 10 {
        let mut out: String = String::new();
        out.push(last);
        assert(out@ =~= decimal(n as nat));
        out
    } else {
        let mut out: String = to_wide_decimal(n / 10);
        out.push(last);
        out
    }
}

/// The number in `s`, at most `max`, if there is one.
pub fn parse_bounded(s: &str, max: u64) -> (r: Option<u64>)
    ensures
        match r {
            Some(n) => parsed(s@, max as nat) == Some(n as nat),
            None => parsed(s@, max as nat) is None,
        },
{
    let x: Vec<char> = chars_of(s);
    let start: usize = if x.len() > 0 && x[0] == '+' {
        1
    } else {
        0
    };
    let ghost d = unsigned_digits(s@);
    assert(d =~= s@.subrange(start as int, s@.len() as int));
    if x.len() == start {
        return None;
    }
    let mut i: usize = start;
    let mut acc: u64 = 0;
    while i < x.len()
        invariant
            x@ == s@,
            start <= i <= x.len(),
            d == s@.subrange(start as int, s@.len() as int),
            d == unsigned_digits(s@),
            all_digits(d.take(i - start)),
            acc as nat == digits_value(d.take(i - start)),
            acc <= max,
        decreases x.len() - i,
    {
        let c: char = x[i];
        assert(d[i - start] == c);
        if c < '0' || c > '9' {
            return None;
        }
        let digit_value: u64 = c as u64 - 48;
        proof {
            let next = d.take(i - start + 1);
            assert(next.drop_last() =~= d.take(i - start));
            assert(next.last() == c);
            assert(all_digits(next)) by {
                assert forall|k: int| 0 <= k < next.len() implies '0' <= #[trigger] next[k] <= '9' by {
                    if k < i - start {
                        assert(next[k] == d.take(i - start)[k]);
                    }
                }
            }
            if all_digits(d) {
                lemma_prefix_value(d, i - start + 1);
            }
        }
        if digit_value > max || acc > max / 10 || acc * 10 > max - digit_value {
            proof {
                assert(acc * 10 + digit_value > max);
            }
            return None;
        }
        acc = acc * 10 + digit_value;
        i += 1;
    }
    assert(d.take(d.len() as int) =~= d);
    Some(acc)
}

/// A text occurs in another exactly where the other is what stands before it, it, and what stands
/// behind it.
pub proof fn law_occurrence_splits_a_text(h: Seq<char>, n: Seq<char>)
    ensures
        occurs(h, n) <==> exists|a: Seq<char>, b: Seq<char>| h == #[trigger] (a + n + b),
        begins_with(h, n) <==> exists|b: Seq<char>| h == #[trigger] (n + b),
        finishes_with(h, n) <==> exists|a: Seq<char>| h == #[trigger] (a + n),
{
    if occurs(h, n) {
        let i = choose|i: int| occurs_at(h, n, i);
        let (a, b) = (h.subrange(0, i), h.subrange(i + n.len(), h.len() as int));
        assert(h.subrange(i, i + n.len()) == n);
        assert(h =~= a + h.subrange(i, i + n.len()) + b);
        assert(h == a + n + b);
    }
    if exists|a: Seq<char>, b: Seq<char>| h == #[trigger] (a + n + b) {
        let (a, b) = choose|a: Seq<char>, b: Seq<char>| h == #[trigger] (a + n + b);
        assert(h.subrange(a.len() as int, (a.len() + n.len()) as int) =~= n);
        assert(occurs_at(h, n, a.len() as int));
    }
    if begins_with(h, n) {
        assert(h =~= h.subrange(0, n.len() as int) + h.subrange(n.len() as int, h.len() as int));
        assert(h == n + h.subrange(n.len() as int, h.len() as int));
    }
    if exists|b: Seq<char>| h == #[trigger] (n + b) {
        let b = choose|b: Seq<char>| h == #[trigger] (n + b);
        assert(h.subrange(0, n.len() as int) =~= n);
    }
    if finishes_with(h, n) {
        let k = h.len() - n.len();
        assert(h =~= h.subrange(0, k) + h.subrange(k, h.len() as int));
        assert(h == h.subrange(0, k) + n);
    }
    if exists|a: Seq<char>| h == #[trigger] (a + n) {
        let a = choose|a: Seq<char>| h == #[trigger] (a + n);
        let k = h.len() - n.len();
        assert(h.subrange(k, k + n.len()) =~= n);
    }
}

/// What occurs in a part of a text occurs in the text.
pub proof fn lemma_occurs_in_a_part(h: Seq<char>, m: Seq<char>, n: Seq<char>)
    requires
        occurs(h, m),
        occurs(m, n),
    ensures
        occurs(h, n),
{
    let i = choose|i: int| occurs_at(h, m, i);
    let j = choose|j: int| occurs_at(m, n, j);
    assert(h.subrange(i + j, i + j + n.len()) =~= h.subrange(i, i + m.len()).subrange(
        j,
        j + n.len(),
    ));
    assert(occurs_at(h, n, i + j));
}

/// A text that is put between others occurs in what they make.
pub proof fn lemma_occurs_between(a: Seq<char>, n: Seq<char>, b: Seq<char>)
    ensures
        occurs(a + n + b, n),
{
    let h = a + n + b;
    let i = a.len() as int;
    assert(h.subrange(i, i + n.len()) =~= n);
    assert(occurs_at(h, n, i));
}

/// A cut stands at the first separator: the text is what stands before it, the separator and what
/// stands behind it, and the separator begins nowhere earlier. There is none exactly where the
/// separator does not occur.
pub proof fn law_cut_is_at_the_first_separator(s: Seq<char>, sep: Seq<char>)
    ensures
        match cut_at(s, sep) {
            Some((before, behind)) => s == before + sep + behind && forall|i: int|
                0 <= i < before.len() ==> #[trigger] s.subrange(i, i + sep.len()) != sep,
            None => forall|a: Seq<char>, b: Seq<char>| s != #[trigger] (a + sep + b),
        },
{
    lemma_first_occurrence(s, sep, 0);
    match first_occurrence(s, sep, 0) {
        Some(i) => {
            assert(s.subrange(i, i + sep.len()) == sep);
            assert(s =~= s.subrange(0, i) + s.subrange(i, i + sep.len()) + s.subrange(
                i + sep.len(),
                s.len() as int,
            ));
            assert forall|j: int| 0 <= j < i implies #[trigger] s.subrange(j, j + sep.len())
                != sep by {
                assert(!occurs_at(s, sep, j));
            }
        },
        None => {
            law_occurrence_splits_a_text(s, sep);
            if occurs(s, sep) {
                let i = choose|i: int| occurs_at(s, sep, i);
                assert(!occurs_at(s, sep, i));
            }
        },
    }
}

/// Joining undoes splitting: the pieces of a text with the separator between them are the text,
/// and no piece holds the separator.
pub proof fn law_joining_undoes_splitting(s: Seq<char>, sep: Seq<char>)
    requires
        sep.len() > 0,
    ensures
        pieces(s, sep).len() > 0,
        joined(pieces(s, sep), sep) == s,
        forall|i: int| 0 <= i < pieces(s, sep).len() ==> !occurs(#[trigger] pieces(s, sep)[i], sep),
    decreases s.len(),
{
    let p = pieces(s, sep);
    lemma_first_occurrence(s, sep, 0);
    match first_occurrence(s, sep, 0) {
        None => {
            assert(s.subrange(0, s.len() as int) =~= s);
            assert(!occurs(s, sep)) by {
                if occurs(s, sep) {
                    let i = choose|i: int| occurs_at(s, sep, i);
                    assert(!occurs_at(s, sep, i));
                }
            }
            lemma_pieces_last(s, sep);
        },
        Some(i) => {
            assert(p.len() > 1) by {
                let tail = s.subrange(i + sep.len(), s.len() as int);
                assert(pieces_from(s, sep, i + sep.len()).len() > 0);
            }
            let rest = lemma_first_piece(s, sep);
            law_joining_undoes_splitting(rest, sep);
            let more = pieces(rest, sep);
            assert(p.subrange(1, p.len() as int) =~= more);
            lemma_joined_front(p, sep);
            let a = p[0];
            assert(!occurs(a, sep)) by {
                lemma_first_occurrence(a + sep, sep, 0);
                if occurs(a, sep) {
                    let j = choose|j: int| occurs_at(a, sep, j);
                    assert((a + sep).subrange(j, j + sep.len()) =~= a.subrange(j, j + sep.len()));
                    assert(occurs_at(a + sep, sep, j));
                    assert(j < a.len());
                }
            }
            assert forall|k: int| 0 <= k < p.len() implies !occurs(#[trigger] p[k], sep) by {
                if k > 0 {
                    assert(p[k] == more[k - 1]);
                }
            }
        },
    }
}

/// Replacing a text that does not occur changes nothing; the first occurrence is replaced, and then
/// those behind it. Their number counts along.
pub proof fn law_every_occurrence_is_replaced(
    a: Seq<char>,
    n: Seq<char>,
    rest: Seq<char>,
    with: Seq<char>,
)
    requires
        n.len() > 0,
    ensures
        !occurs(rest, n) ==> replaced(rest, n, with) == rest && occurrences(rest, n) == 0,
        ends_cleanly(a, n) ==> replaced(a + n + rest, n, with) == a + with + replaced(rest, n, with)
            && occurrences(a + n + rest, n) == 1 + occurrences(rest, n),
{
    if !occurs(rest, n) {
        lemma_pieces_last(rest, n);
    }
    if ends_cleanly(a, n) {
        lemma_pieces_step(a, n, rest);
        law_joining_undoes_splitting(rest, n);
        let p = pieces(a + n + rest, n);
        lemma_joined_front(p, with);
        assert(p.subrange(1, p.len() as int) =~= pieces(rest, n));
    }
}

/// The lines of a text: a line ends at a line feed, with or without a return before it, and what
/// stands behind the last line feed is a line where there is anything.
pub proof fn law_lines_end_at_line_feeds(line: Seq<char>, rest: Seq<char>)
    requires
        one_line(line),
    ensures
        line_seq(line + seq!['\n'] + rest) == seq![
            if line.len() > 0 && line.last() == '\r' {
                line.drop_last()
            } else {
                line
            },
        ] + line_seq(rest),
        line_seq(line) == if line.len() == 0 {
            Seq::<Seq<char>>::empty()
        } else {
            seq![line]
        },
{
    let feed = seq!['\n'];
    let s = line + feed + rest;
    let n = line.len() as int;
    assert(s.subrange(n, n + 1) =~= feed);
    assert forall|j: int| 0 <= j < n implies !occurs_at(s, feed, j) by {
        if occurs_at(s, feed, j) {
            assert(s.subrange(j, j + 1)[0] == s[j]);
            assert(line[j] == s[j]);
            assert(feed[0] == '\n');
        }
    }
    lemma_first_occurrence_is(s, feed, 0, n);
    assert(s.subrange(0, n) =~= line);
    lemma_lines_behind(line + feed, rest, 0);
    assert forall|j: int| !occurs_at(line, feed, j) by {
        if occurs_at(line, feed, j) {
            assert(line.subrange(j, j + 1)[0] == line[j]);
            assert(feed[0] == '\n');
        }
    }
    lemma_first_occurrence(line, feed, 0);
    assert(line.subrange(0, n) =~= line);
}

proof fn lemma_lines_behind(p: Seq<char>, rest: Seq<char>, from: int)
    requires
        0 <= from <= rest.len(),
    ensures
        lines_from(p + rest, p.len() + from) == lines_from(rest, from),
    decreases rest.len() - from,
{
    let feed = seq!['\n'];
    lemma_first_occurrence_behind(p, rest, feed, from);
    let s = p + rest;
    if from < rest.len() {
        assert(s.subrange(p.len() + from, s.len() as int) =~= rest.subrange(
            from,
            rest.len() as int,
        ));
        match first_occurrence(rest, feed, from) {
            Some(i) => {
                lemma_first_occurrence(rest, feed, from);
                assert(s.subrange(p.len() + from, p.len() + i) =~= rest.subrange(from, i));
                lemma_lines_behind(p, rest, i + 1);
            },
            None => {},
        }
    }
}

/// Trimming takes characters of a class away at an end, all of them there and nothing else.
pub proof fn law_trimming_takes_the_ends(s: Seq<char>, class: CharClass)
    ensures
        ({
            let t = trimmed_end(s, class);
            &&& t.len() <= s.len() && t == s.subrange(0, t.len() as int)
            &&& forall|i: int| t.len() <= i < s.len() ==> in_class(#[trigger] s[i], class)
            &&& t.len() > 0 ==> !in_class(t.last(), class)
        }),
        ({
            let t = trimmed_start(s, class);
            &&& t.len() <= s.len() && t == s.subrange(s.len() - t.len(), s.len() as int)
            &&& forall|i: int| 0 <= i < s.len() - t.len() ==> in_class(#[trigger] s[i], class)
            &&& t.len() > 0 ==> !in_class(t[0], class)
        }),
    decreases s.len(),
{
    if s.len() > 0 && in_class(s.last(), class) {
        let front = s.drop_last();
        law_trimming_takes_the_ends(front, class);
        let t = trimmed_end(front, class);
        assert(front.subrange(0, t.len() as int) =~= s.subrange(0, t.len() as int));
        assert forall|i: int| t.len() <= i < s.len() implies in_class(#[trigger] s[i], class) by {
            if i < front.len() {
                assert(front[i] == s[i]);
            }
        }
    } else {
        assert(s.subrange(0, s.len() as int) =~= s);
    }
    if s.len() > 0 && in_class(s[0], class) {
        let back = s.subrange(1, s.len() as int);
        law_trimming_takes_the_ends(back, class);
        let t = trimmed_start(back, class);
        assert(back.subrange(back.len() - t.len(), back.len() as int) =~= s.subrange(
            s.len() - t.len(),
            s.len() as int,
        ));
        assert forall|i: int| 0 <= i < s.len() - t.len() implies in_class(
            #[trigger] s[i],
            class,
        ) by {
            if i > 0 {
                assert(back[i - 1] == s[i]);
            }
        }
    } else {
        assert(s.subrange(0, s.len() as int) =~= s);
    }
}

proof fn lemma_trimmed_start(before: Seq<char>, rest: Seq<char>)
    requires
        forall|i: int| 0 <= i < before.len() ==> is_space(#[trigger] before[i]),
        rest.len() > 0 ==> !is_space(rest[0]),
    ensures
        trimmed_start(before + rest, CharClass::Space) == rest,
    decreases before.len(),
{
    let s = before + rest;
    if before.len() == 0 {
        assert(s =~= rest);
    } else {
        assert(s[0] == before[0]);
        lemma_trimmed_start(before.subrange(1, before.len() as int), rest);
        assert(s.subrange(1, s.len() as int) =~= before.subrange(1, before.len() as int) + rest);
    }
}

proof fn lemma_trimmed_end(rest: Seq<char>, behind: Seq<char>)
    requires
        forall|i: int| 0 <= i < behind.len() ==> is_space(#[trigger] behind[i]),
        rest.len() > 0 ==> !is_space(rest.last()),
    ensures
        trimmed_end(rest + behind, CharClass::Space) == rest,
    decreases behind.len(),
{
    let s = rest + behind;
    if behind.len() == 0 {
        assert(s =~= rest);
    } else {
        assert(s.last() == behind.last());
        lemma_trimmed_end(rest, behind.drop_last());
        assert(s.drop_last() =~= rest + behind.drop_last());
    }
}

/// A trimmed text is the part of the text from its first to its last character that is no white
/// space, and nothing where there is none.
pub proof fn law_trimmed_text_is_the_middle(before: Seq<char>, middle: Seq<char>, behind: Seq<char>)
    requires
        forall|i: int| 0 <= i < before.len() ==> is_space(#[trigger] before[i]),
        forall|i: int| 0 <= i < behind.len() ==> is_space(#[trigger] behind[i]),
        middle.len() > 0 ==> !is_space(middle[0]) && !is_space(middle.last()),
    ensures
        trimmed(before + middle + behind) == middle,
{
    if middle.len() > 0 {
        assert((middle + behind)[0] == middle[0]);
        assert(before + middle + behind =~= before + (middle + behind));
        lemma_trimmed_start(before, middle + behind);
        lemma_trimmed_end(middle, behind);
    } else {
        let blank = before + behind;
        let none = Seq::<char>::empty();
        assert(before + middle + behind =~= blank + none);
        assert forall|i: int| 0 <= i < blank.len() implies is_space(#[trigger] blank[i]) by {
            if i >= before.len() {
                assert(blank[i] == behind[i - before.len()]);
            }
        }
        lemma_trimmed_start(blank, none);
        lemma_trimmed_end(none, none);
        assert(none + none =~= none);
        assert(middle =~= none);
    }
}

/// Padding keeps a text and fills up to the width, behind it or before it.
pub proof fn law_padding_fills_the_width(s: Seq<char>, c: char, width: int)
    ensures
        padded_right(s, width).len() == if s.len() < width {
            width
        } else {
            s.len() as int
        },
        padded_right(s, width).subrange(0, s.len() as int) == s,
        forall|i: int| s.len() <= i < width ==> #[trigger] padded_right(s, width)[i] == ' ',
        padded_left(s, c, width).len() == padded_right(s, width).len(),
        padded_left(s, c, width).subrange(
            padded_left(s, c, width).len() - s.len(),
            padded_left(s, c, width).len() as int,
        ) == s,
        forall|i: int| 0 <= i < width - s.len() ==> #[trigger] padded_left(s, c, width)[i] == c,
{
    assert(padded_right(s, width).subrange(0, s.len() as int) =~= s);
    let left = padded_left(s, c, width);
    assert(left.subrange(left.len() - s.len(), left.len() as int) =~= s);
}

/// A number is written without needless zeros, and numbers that differ are written differently.
pub proof fn law_decimal_is_plain(n: nat, m: nat)
    ensures
        decimal(n).len() > 0,
        forall|i: int| 0 <= i < decimal(n).len() ==> '0' <= #[trigger] decimal(n)[i] <= '9',
        n > 0 ==> decimal(n)[0] != '0',
        decimal(n) == decimal(m) ==> n == m,
    decreases n,
{
    lemma_decimal(n);
    lemma_decimal(m);
    if n >= 10 {
        law_decimal_is_plain(n / 10, m);
        assert(decimal(n)[0] == decimal(n / 10)[0]);
    }
}

/// The value of digits: a further digit counts along with ten times what stands before it. Digits
/// are read as their value where it is within the bounds, with a plus sign before them or without,
/// and nothing else is read as a number.
pub proof fn law_numbers_are_read_by_their_digits(s: Seq<char>, max: nat)
    ensures
        forall|d: char| '0' <= d <= '9' ==> #[trigger] digits_value(s.push(d)) == digits_value(s)
            * 10 + (d as int - '0' as int),
        digits_value(Seq::empty()) == 0,
        parsed(s, max) matches Some(n) ==> n <= max && (n == digits_value(s) || n == digits_value(
            s.subrange(1, s.len() as int),
        )) && s.len() > 0 && '0' <= s.last() <= '9',
        s.len() > 0 && (forall|i: int| 0 <= i < s.len() ==> '0' <= #[trigger] s[i] <= '9')
            && digits_value(s) <= max ==> parsed(s, max) == Some(digits_value(s)) && parsed(
            seq!['+'] + s,
            max,
        ) == Some(digits_value(s)),
        parsed(s, max) is Some ==> forall|i: int| 0 < i < s.len() ==> '0' <= #[trigger] s[i] <= '9',
        s.len() > 0 && s[0] != '+' && !('0' <= s[0] <= '9') ==> parsed(s, max) is None,
        s.len() == 0 ==> parsed(s, max) is None,
{
    assert forall|d: char| '0' <= d <= '9' implies #[trigger] digits_value(s.push(d))
        == digits_value(s) * 10 + (d as int - '0' as int) by {
        assert(s.push(d).drop_last() =~= s);
    }
    let d = unsigned_digits(s);
    if s.len() > 0 && s[0] == '+' {
        assert forall|i: int| 0 < i < s.len() implies d[i - 1] == #[trigger] s[i] by {}
        if d.len() > 0 {
            assert(d.last() == s.last());
        }
    }
    if parsed(s, max) is Some {
        assert(all_digits(d));
        assert('0' <= d[d.len() - 1] <= '9');
    }
    if parsed(s, max) is Some {
        assert forall|i: int| 0 < i < s.len() implies '0' <= #[trigger] s[i] <= '9' by {
            if s[0] == '+' {
                assert(d[i - 1] == s[i]);
            } else {
                assert(d[i] == s[i]);
            }
        }
    }
    if s.len() > 0 && (forall|i: int| 0 <= i < s.len() ==> '0' <= #[trigger] s[i] <= '9')
        && digits_value(s) <= max {
        assert('0' <= s[0] <= '9');
        assert(unsigned_digits(s) == s);
        let p = seq!['+'] + s;
        assert(p[0] == '+');
        assert(p.subrange(1, p.len() as int) =~= s);
        assert(unsigned_digits(p) == s);
    }
}

/// Small letters stay, and the great ones among the ASCII letters become small; nothing else
/// changes.
pub proof fn law_lowering_changes_great_letters(s: Seq<char>, i: int)
    requires
        0 <= i < s.len(),
    ensures
        lowered(s).len() == s.len(),
        !('A' <= s[i] <= 'Z') ==> lowered(s)[i] == s[i],
        'A' <= s[i] <= 'Z' ==> lowered(s)[i] as int == s[i] as int + 32,
        lowered(lowered(s)) == lowered(s),
{
    assert forall|c: char| 'A' <= c <= 'Z' implies #[trigger] ascii_lower(c) as int == c as int
        + 32 by {}
    assert(lowered(lowered(s)) =~= lowered(s));
}

/// The texts of a list are those of its strings, one for each.
pub proof fn law_texts_of_strings(v: Seq<String>, i: int, s: String)
    requires
        0 <= i < v.len(),
    ensures
        views(v).len() == v.len(),
        views(v)[i] == v[i]@,
        opt_view(Some(s)) == Some(s@),
        opt_view(None) is None,
{
}

/// Each text of a list stands in the joined text.
pub proof fn lemma_joined_occurs(list: Seq<Seq<char>>, sep: Seq<char>, k: int)
    requires
        0 <= k < list.len(),
    ensures
        occurs(joined(list, sep), list[k]),
    decreases list.len(),
{
    let none = Seq::<char>::empty();
    let all = joined(list, sep);
    if list.len() == 1 {
        lemma_occurs_between(none, list[0], none);
        assert(none + list[0] + none =~= all);
    } else {
        let before = joined(list.drop_last(), sep);
        if k == list.len() - 1 {
            lemma_occurs_between(before + sep, list[k], none);
            assert(before + sep + list[k] + none =~= all);
        } else {
            lemma_joined_occurs(list.drop_last(), sep, k);
            lemma_occurs_between(none, before, sep + list.last());
            assert(none + before + (sep + list.last()) =~= all);
            lemma_occurs_in_a_part(all, before, list[k]);
        }
    }
}

} // verus!
