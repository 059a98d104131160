//! Paths as text: components, parents, prefixes and joining.
//!
//! A path is the text that names it. Its components are what stands between slashes; empty
//! components count for nothing, and so does `.` anywhere but at the start of a relative path.

use crate::order::push_text_key;
#[allow(unused_imports)]
use crate::{
    order::{
        key_begins, key_less, law_text_keys_are_faithful, law_text_keys_are_separate,
        lemma_joined_keys, lemma_key_irreflexive, lemma_key_total, lemma_letter, letter, smaller_at,
        text_key, text_less,
    },
    text::{
        first_occurrence, lemma_first_occurrence, lemma_first_occurrence_is, occurs_at, pieces,
        pieces_from,
    },
};
use crate::text::{chars_of, text_of, views};
use vstd::prelude::*;

verus! {

/// Whether a path starts at the root.
pub open spec fn is_rooted(p: Seq<char>) -> bool {
    p.len() > 0 && p[0] == '/'
}

/// Where the segment that holds position `i` ends.
pub open spec fn segment_end(p: Seq<char>, i: int) -> int
    decreases p.len() - i,
{
    if i < 0 || i >= p.len() || p[i] == '/' {
        i
    } else {
        segment_end(p, i + 1)
    }
}

/// The spans of the components from position `i` on.
pub open spec fn spans_from(p: Seq<char>, i: int) -> Seq<(int, int)>
    decreases p.len() - i,
{
    if i < 0 || i >= p.len() {
        Seq::empty()
    } else if p[i] == '/' {
        spans_from(p, i + 1)
    } else {
        let e = segment_end(p, i);
        if e <= i || e > p.len() {
            Seq::empty()
        } else if p.subrange(i, e) == seq!['.'] {
            spans_from(p, e)
        } else {
            seq![(i, e)] + spans_from(p, e)
        }
    }
}

/// The spans of all components. The root, and a leading `.`, have the span of one character.
pub open spec fn spans(p: Seq<char>) -> Seq<(int, int)> {
    if is_rooted(p) || (p.len() > 0 && p[0] == '.' && (p.len() == 1 || p[1] == '/')) {
        seq![(0int, 1int)] + spans_from(p, 1)
    } else {
        spans_from(p, 0)
    }
}

/// The texts of spans.
pub open spec fn span_texts(p: Seq<char>, s: Seq<(int, int)>) -> Seq<Seq<char>> {
    Seq::new(s.len(), |i: int| p.subrange(s[i].0, s[i].1))
}

/// The components of a path: `/` for the root, else the text between slashes.
pub open spec fn components(p: Seq<char>) -> Seq<Seq<char>> {
    span_texts(p, spans(p))
}

/// Whether two texts name the same path.
pub open spec fn same_path_text(a: Seq<char>, b: Seq<char>) -> bool {
    components(a) == components(b)
}

/// Whether `base` is `p` or an ancestor of it.
pub open spec fn is_within(p: Seq<char>, base: Seq<char>) -> bool {
    let c = components(p);
    let b = components(base);
    b.len() <= c.len() && c.subrange(0, b.len() as int) == b
}

/// Whether the last components of `p` are those of `tail`.
pub open spec fn has_tail(p: Seq<char>, tail: Seq<char>) -> bool {
    let c = components(p);
    let t = components(tail);
    t.len() <= c.len() && c.subrange(c.len() - t.len(), c.len() as int) == t
}

/// The path without its last component; none for the root and for the empty path.
pub open spec fn parent_of(p: Seq<char>) -> Option<Seq<char>> {
    let s = spans(p);
    if s.len() == 0 || (s.len() == 1 && is_rooted(p)) {
        None
    } else if s.len() == 1 {
        Some(Seq::empty())
    } else {
        Some(p.subrange(0, s[s.len() - 2].1))
    }
}

/// Whether a component is a name rather than the root, `.` or `..`.
pub open spec fn is_name(c: Seq<char>) -> bool {
    c != seq!['/'] && c != seq!['.'] && c != seq!['.', '.']
}

/// The last component where it is a name.
pub open spec fn file_name_of(p: Seq<char>) -> Option<Seq<char>> {
    let c = components(p);
    if c.len() > 0 && is_name(c.last()) {
        Some(c.last())
    } else {
        None
    }
}

/// `p` taken relative to `base`; `p` itself where it starts at the root.
pub open spec fn joined_path(base: Seq<char>, p: Seq<char>) -> Seq<char> {
    if is_rooted(p) {
        p
    } else if base.len() > 0 && base.last() != '/' {
        base + seq!['/'] + p
    } else {
        base + p
    }
}

/// What of `p` stands below `base`; none where `base` is no prefix of it.
pub open spec fn below(p: Seq<char>, base: Seq<char>) -> Option<Seq<char>> {
    let s = spans(p);
    let k = components(base).len() as int;
    if !is_within(p, base) {
        None
    } else if k == s.len() {
        Some(Seq::empty())
    } else {
        Some(p.subrange(s[k].0, s.last().1))
    }
}

/// The spans of `v` in mathematical integers.
pub open spec fn span_view(v: Seq<(usize, usize)>) -> Seq<(int, int)> {
    Seq::new(v.len(), |i: int| (v[i].0 as int, v[i].1 as int))
}

proof fn lemma_segment_end(p: Seq<char>, i: int)
    requires
        0 <= i <= p.len(),
    ensures
        i <= segment_end(p, i) <= p.len(),
        i < p.len() && p[i] != '/' ==> i < segment_end(p, i),
        segment_end(p, i) < p.len() ==> p[segment_end(p, i)] == '/',
        forall|j: int| i <= j < segment_end(p, i) ==> p[j] != '/',
    decreases p.len() - i,
{
    if i < p.len() && p[i] != '/' {
        lemma_segment_end(p, i + 1);
    }
}

/// Spans lie within the text, in order, and none is empty.
pub proof fn lemma_spans_from(p: Seq<char>, i: int)
    requires
        0 <= i,
    ensures
        forall|k: int|
            0 <= k < spans_from(p, i).len() ==> i <= (#[trigger] spans_from(p, i)[k]).0
                < spans_from(p, i)[k].1 <= p.len(),
        forall|k: int, l: int|
            0 <= k < l < spans_from(p, i).len() ==> (#[trigger] spans_from(p, i)[k]).1 <= (
            #[trigger] spans_from(p, i)[l]).0,
    decreases p.len() - i,
{
    if i < p.len() {
        if p[i] == '/' {
            lemma_spans_from(p, i + 1);
            assert(spans_from(p, i) == spans_from(p, i + 1));
        } else {
            lemma_segment_end(p, i);
            let e = segment_end(p, i);
            lemma_spans_from(p, e);
            if p.subrange(i, e) == seq!['.'] {
                assert(spans_from(p, i) == spans_from(p, e));
            } else {
                let rest = spans_from(p, e);
                let all = spans_from(p, i);
                assert(all =~= seq![(i, e)] + rest);
                assert forall|k: int| 0 <= k < all.len() implies i <= (#[trigger] all[k]).0 < all[k].1
                    <= p.len() by {
                    if k > 0 {
                        assert(all[k] == rest[k - 1]);
                    }
                }
                assert forall|k: int, l: int| 0 <= k < l < all.len() implies (#[trigger] all[k]).1 <= (
                #[trigger] all[l]).0 by {
                    assert(all[l] == rest[l - 1]);
                    if k > 0 {
                        assert(all[k] == rest[k - 1]);
                    }
                }
            }
        }
    }
}

/// Spans lie within the text, in order, and none is empty.
pub proof fn lemma_spans(p: Seq<char>)
    ensures
        forall|k: int|
            0 <= k < spans(p).len() ==> 0 <= (#[trigger] spans(p)[k]).0 < spans(p)[k].1 <= p.len(),
        forall|k: int, l: int|
            0 <= k < l < spans(p).len() ==> (#[trigger] spans(p)[k]).1 <= (#[trigger] spans(p)[l]).0,
{
    lemma_spans_from(p, 0);
    lemma_spans_from(p, 1);
    let s = spans(p);
    if is_rooted(p) || (p.len() > 0 && p[0] == '.' && (p.len() == 1 || p[1] == '/')) {
        let rest = spans_from(p, 1);
        assert(s =~= seq![(0int, 1int)] + rest);
        assert forall|k: int| 0 <= k < s.len() implies 0 <= (#[trigger] s[k]).0 < s[k].1 <= p.len() by {
            if k > 0 {
                assert(s[k] == rest[k - 1]);
            }
        }
        assert forall|k: int, l: int| 0 <= k < l < s.len() implies (#[trigger] s[k]).1 <= (
        #[trigger] s[l]).0 by {
            assert(s[l] == rest[l - 1]);
            if k > 0 {
                assert(s[k] == rest[k - 1]);
            }
        }
    }
}

fn find_spans(p: &Vec<char>) -> (r: Vec<(usize, usize)>)
    ensures
        span_view(r@) == spans(p@),
{
    let mut out: Vec<(usize, usize)> = Vec::new();
    let mut i: usize = 0;
    if p.len() > 0 && (p[0] == '/' || (p[0] == '.' && (p.len() == 1 || p[1] == '/'))) {
        out.push((0, 1));
        i = 1;
        assert(span_view(out@) =~= seq![(0int, 1int)]);
    }
    assert(span_view(out@) + spans_from(p@, i as int) =~= spans(p@));
    while i < p.len()
        invariant
            i <= p.len(),
            span_view(out@) + spans_from(p@, i as int) == spans(p@),
        decreases p.len() - i,
    {
        if p[i] == '/' {
            i += 1;
        } else {
            proof {
                lemma_segment_end(p@, i as int);
            }
            let start: usize = i;
            while i < p.len() && p[i] != '/'
                invariant
                    start <= i <= p.len(),
                    segment_end(p@, start as int) == segment_end(p@, i as int),
                decreases p.len() - i,
            {
                i += 1;
            }
            assert(segment_end(p@, start as int) == i);
            if i - start == 1 && p[start] == '.' {
                assert(p@.subrange(start as int, i as int) =~= seq!['.']);
            } else {
                assert(p@.subrange(start as int, i as int) != seq!['.']) by {
                    assert(seq!['.'].len() == 1 && seq!['.'][0] == '.');
                    assert(p@.subrange(start as int, i as int)[0] == p@[start as int]);
                }
                let ghost before = out@;
                out.push((start, i));
                assert(span_view(out@) =~= span_view(before).push((start as int, i as int)));
                assert(span_view(out@) + spans_from(p@, i as int) =~= spans(p@));
            }
        }
    }
    assert(span_view(out@) =~= span_view(out@) + spans_from(p@, i as int));
    out
}

/// The components of a path.
pub fn components_of(p: &str) -> (r: Vec<String>)
    ensures
        views(r@) == components(p@),
{
    let x: Vec<char> = chars_of(p);
    let s: Vec<(usize, usize)> = find_spans(&x);
    let mut out: Vec<String> = Vec::new();
    let mut i: usize = 0;
    proof {
        lemma_spans(p@);
    }
    while i < s.len()
        invariant
            x@ == p@,
            i <= s.len(),
            out@.len() == i,
            span_view(s@) == spans(p@),
            forall|k: int|
                0 <= k < spans(p@).len() ==> 0 <= (#[trigger] spans(p@)[k]).0 < spans(p@)[k].1
                    <= p@.len(),
            forall|k: int| 0 <= k < i ==> (#[trigger] out@[k])@ == components(p@)[k],
        decreases s.len() - i,
    {
        assert(spans(p@)[i as int] == (s@[i as int].0 as int, s@[i as int].1 as int));
        out.push(text_of(&x, s[i].0, s[i].1));
        i += 1;
    }
    assert(views(out@) =~= components(p@));
    out
}

/// Whether `a` holds the texts of `b` from `from` on.
fn texts_match(a: &Vec<String>, b: &Vec<String>, from: usize) -> (r: bool)
    requires
        from + b@.len() <= a@.len(),
    ensures
        r == (views(a@).subrange(from as int, from + b@.len()) == views(b@)),
{
    let mut i: usize = 0;
    while i < b.len()
        invariant
            i <= b.len(),
            from + b.len() <= a.len(),
            forall|k: int| 0 <= k < i ==> (#[trigger] views(b@)[k]) == views(a@)[from + k],
        decreases b.len() - i,
    {
        if a[from + i] != b[i] {
            assert(views(a@).subrange(from as int, from + b@.len())[i as int] != views(b@)[i as int]);
            return false;
        }
        i += 1;
    }
    assert(views(a@).subrange(from as int, from + b@.len()) =~= views(b@));
    true
}

/// Whether two texts name the same path.
pub fn same_path(a: &str, b: &str) -> (r: bool)
    ensures
        r == same_path_text(a@, b@),
{
    let x: Vec<String> = components_of(a);
    let y: Vec<String> = components_of(b);
    assert(components(a@).len() == x@.len() && components(b@).len() == y@.len());
    if x.len() != y.len() {
        return false;
    }
    assert(views(x@).subrange(0, y@.len() as int) =~= views(x@));
    texts_match(&x, &y, 0)
}

/// Whether `base` is `p` or an ancestor of it.
pub fn starts_with_path(p: &str, base: &str) -> (r: bool)
    ensures
        r == is_within(p@, base@),
{
    let x: Vec<String> = components_of(p);
    let y: Vec<String> = components_of(base);
    assert(components(p@).len() == x@.len() && components(base@).len() == y@.len());
    if y.len() > x.len() {
        return false;
    }
    texts_match(&x, &y, 0)
}

/// Whether the last components of `p` are those of `tail`.
pub fn ends_with_path(p: &str, tail: &str) -> (r: bool)
    ensures
        r == has_tail(p@, tail@),
{
    let x: Vec<String> = components_of(p);
    let y: Vec<String> = components_of(tail);
    assert(components(p@).len() == x@.len() && components(tail@).len() == y@.len());
    if y.len() > x.len() {
        return false;
    }
    texts_match(&x, &y, x.len() - y.len())
}

/// Whether a path starts at the root.
pub fn is_absolute(p: &str) -> (r: bool)
    ensures
        r == is_rooted(p@),
{
    let x: Vec<char> = chars_of(p);
    x.len() > 0 && x[0] == '/'
}

/// The path without its last component.
pub fn parent(p: &str) -> (r: Option<String>)
    ensures
        crate::text::opt_view(r) == parent_of(p@),
{
    let x: Vec<char> = chars_of(p);
    let s: Vec<(usize, usize)> = find_spans(&x);
    proof {
        lemma_spans(p@);
        assert(spans(p@).len() == s@.len());
    }
    if s.len() == 0 || (s.len() == 1 && x.len() > 0 && x[0] == '/') {
        None
    } else if s.len() == 1 {
        Some(String::new())
    } else {
        assert(spans(p@)[s@.len() - 2] == (s@[s@.len() - 2].0 as int, s@[s@.len() - 2].1 as int));
        Some(text_of(&x, 0, s[s.len() - 2].1))
    }
}

/// The path without its last component, `/` where there is none.
pub fn parent_or_root(p: &str) -> (r: String)
    ensures
        r@ == directory_of(p@),
{
    match parent(p) {
        Some(q) => q,
        None => {
            proof {
                reveal_strlit("/");
            }
            let r: String = "/".to_owned();
            assert(r@ =~= seq!['/']);
            r
        },
    }
}

/// The directory that holds a path: its parent, or the root.
pub open spec fn directory_of(p: Seq<char>) -> Seq<char> {
    match parent_of(p) {
        Some(q) => q,
        None => seq!['/'],
    }
}

/// The last component where it is a name.
pub fn file_name(p: &str) -> (r: Option<String>)
    ensures
        crate::text::opt_view(r) == file_name_of(p@),
{
    let c: Vec<String> = components_of(p);
    assert(components(p@).len() == c@.len());
    if c.len() == 0 {
        return None;
    }
    let last: String = c[c.len() - 1].clone();
    assert(components(p@).last() == last@);
    proof {
        reveal_strlit("/");
        reveal_strlit(".");
        reveal_strlit("..");
        assert("/"@ =~= seq!['/']);
        assert("."@ =~= seq!['.']);
        assert(".."@ =~= seq!['.', '.']);
    }
    if crate::text::same(last.as_str(), "/") || crate::text::same(last.as_str(), ".")
        || crate::text::same(last.as_str(), "..") {
        None
    } else {
        Some(last)
    }
}

/// `p` taken relative to `base`.
pub fn join(base: &str, p: &str) -> (r: String)
    ensures
        r@ == joined_path(base@, p@),
{
    if is_absolute(p) {
        return p.to_owned();
    }
    let b: Vec<char> = chars_of(base);
    let mut out: String = base.to_owned();
    if b.len() > 0 && b[b.len() - 1] != '/' {
        out.push('/');
        assert(out@ =~= base@ + seq!['/']);
    }
    out.append(p);
    out
}

/// What of `p` stands below `base`.
pub fn strip_prefix(p: &str, base: &str) -> (r: Option<String>)
    ensures
        crate::text::opt_view(r) == below(p@, base@),
{
    if !starts_with_path(p, base) {
        return None;
    }
    let x: Vec<char> = chars_of(p);
    let s: Vec<(usize, usize)> = find_spans(&x);
    let b: Vec<String> = components_of(base);
    let k: usize = b.len();
    assert(components(base@).len() == k);
    proof {
        lemma_spans(p@);
        assert(spans(p@).len() == s@.len());
    }
    if k == s.len() {
        return Some(String::new());
    }
    assert(spans(p@)[k as int] == (s@[k as int].0 as int, s@[k as int].1 as int));
    assert(spans(p@).last() == (s@.last().0 as int, s@.last().1 as int));
    Some(text_of(&x, s[k].0, s[s.len() - 1].1))
}

/// The rank of a component: root, `.`, `..`, name.
pub open spec fn component_rank(c: Seq<char>) -> u64 {
    if c == seq!['/'] {
        1
    } else if c == seq!['.'] {
        2
    } else if c == seq!['.', '.'] {
        3
    } else {
        4
    }
}

/// A key whose order is the order of component lists.
pub open spec fn components_key(c: Seq<Seq<char>>) -> Seq<u64>
    decreases c.len(),
{
    if c.len() == 0 {
        Seq::empty()
    } else {
        components_key(c.drop_last()).push(component_rank(c.last())) + text_key(c.last())
    }
}

/// A key whose order is the order of paths: component by component, names by their characters.
pub open spec fn path_key(p: Seq<char>) -> Seq<u64> {
    components_key(components(p)).push(0)
}

proof fn lemma_components_key_ends(c: Seq<Seq<char>>)
    requires
        c.len() > 0,
    ensures
        components_key(c).len() > 0,
        components_key(c).last() == 0,
{
}

proof fn lemma_components_key_injective(a: Seq<Seq<char>>, b: Seq<Seq<char>>)
    requires
        components_key(a) == components_key(b),
    ensures
        a == b,
    decreases a.len(),
{
    if a.len() == 0 {
        if b.len() > 0 {
            lemma_components_key_ends(b);
        }
        assert(a =~= b);
    } else if b.len() == 0 {
        lemma_components_key_ends(a);
    } else {
        let whole = components_key(a);
        let ka = components_key(a.drop_last());
        let kb = components_key(b.drop_last());
        let (x, y) = (a.last(), b.last());
        if a.len() > 1 {
            lemma_components_key_ends(a.drop_last());
        }
        if b.len() > 1 {
            lemma_components_key_ends(b.drop_last());
        }
        assert(whole.len() == ka.len() + x.len() + 2);
        assert(whole.len() == kb.len() + y.len() + 2);
        if ka.len() < kb.len() {
            assert(whole[kb.len() - 1] == kb.last());
            if kb.len() - 1 == ka.len() {
                assert(whole[kb.len() - 1] == component_rank(x));
            } else {
                let c = x[kb.len() - 2 - ka.len()];
                assert(whole[kb.len() - 1] == letter(c));
                lemma_letter(c, c);
            }
            assert(false);
        }
        if kb.len() < ka.len() {
            assert(whole[ka.len() - 1] == ka.last());
            if ka.len() - 1 == kb.len() {
                assert(whole[ka.len() - 1] == component_rank(y));
            } else {
                let c = y[ka.len() - 2 - kb.len()];
                assert(whole[ka.len() - 1] == letter(c));
                lemma_letter(c, c);
            }
            assert(false);
        }
        assert forall|i: int| 0 <= i < x.len() implies x[i] == y[i] by {
            assert(whole[ka.len() + 1 + i] == letter(x[i]));
            assert(whole[ka.len() + 1 + i] == letter(y[i]));
            lemma_letter(x[i], y[i]);
        }
        assert(x =~= y);
        assert(ka =~= whole.subrange(0, ka.len() as int));
        assert(kb =~= whole.subrange(0, ka.len() as int));
        lemma_components_key_injective(a.drop_last(), b.drop_last());
        assert(a =~= a.drop_last().push(x));
        assert(b =~= b.drop_last().push(y));
    }
}

/// Two texts have one key where they name one path, and only there.
pub proof fn law_path_keys_are_faithful(a: Seq<char>, b: Seq<char>)
    ensures
        path_key(a) == path_key(b) <==> same_path_text(a, b),
{
    if path_key(a) == path_key(b) {
        assert(path_key(a).drop_last() =~= components_key(components(a)));
        assert(path_key(b).drop_last() =~= components_key(components(b)));
        lemma_components_key_injective(components(a), components(b));
    }
}

/// Whether a key is at its end at a place: a zero, with nothing or another zero before it.
spec fn ends_at(key: Seq<u64>, i: int) -> bool {
    key[i] == 0 && (i == 0 || key[i - 1] == 0)
}

proof fn lemma_components_key_goes_on(c: Seq<Seq<char>>, i: int)
    requires
        0 <= i < components_key(c).len(),
    ensures
        !ends_at(components_key(c), i),
    decreases c.len(),
{
    if c.len() > 0 {
        let whole = components_key(c);
        let before = components_key(c.drop_last());
        let x = c.last();
        let n = before.len() as int;
        assert(whole[n] == component_rank(x));
        if i < n {
            lemma_components_key_goes_on(c.drop_last(), i);
            assert(whole[i] == before[i] && (i > 0 ==> whole[i - 1] == before[i - 1]));
        } else if n < i <= n + x.len() {
            assert(whole[i] == letter(x[i - n - 1]));
            lemma_letter(x[i - n - 1], x[i - n - 1]);
        } else if i > n + x.len() && x.len() > 0 {
            assert(whole[i - 1] == letter(x[x.len() - 1]));
            lemma_letter(x[x.len() - 1], x[x.len() - 1]);
        }
    }
}

/// No key of a path is the beginning of that of another path.
pub proof fn law_path_keys_are_separate(a: Seq<char>, b: Seq<char>)
    requires
        key_begins(path_key(a), path_key(b)),
    ensures
        path_key(a) == path_key(b),
{
    let (x, y) = (path_key(a), path_key(b));
    let front = components_key(components(b));
    let last = y.len() - 1;
    if components(b).len() > 0 {
        lemma_components_key_ends(components(b));
    }
    assert(last > 0 ==> y[last - 1] == front.last());
    assert(ends_at(y, last));
    assert(x[last] == y[last] && (last > 0 ==> x[last - 1] == y[last - 1])) by {
        assert(x.subrange(0, y.len() as int)[last] == y[last]);
        assert(last > 0 ==> x.subrange(0, y.len() as int)[last - 1] == y[last - 1]);
    }
    if y.len() < x.len() {
        let whole = components_key(components(a));
        assert(x[last] == whole[last] && (last > 0 ==> x[last - 1] == whole[last - 1]));
        lemma_components_key_goes_on(components(a), last);
    }
    assert(x =~= y);
}

/// The order of components: root, `.` and `..` before names, names by their characters.
pub open spec fn component_less(a: Seq<char>, b: Seq<char>) -> bool {
    component_rank(a) < component_rank(b) || (component_rank(a) == component_rank(b) && text_less(
        a,
        b,
    ))
}

/// Whether two lists of components first differ at `k`, `a` having the smaller one there or ending
/// there.
pub open spec fn components_smaller_at(a: Seq<Seq<char>>, b: Seq<Seq<char>>, k: int) -> bool {
    &&& 0 <= k <= a.len()
    &&& k < b.len()
    &&& forall|j: int| 0 <= j < k ==> a[j] == b[j]
    &&& k == a.len() || component_less(a[k], b[k])
}

/// The order of paths, component by component.
pub open spec fn path_less(a: Seq<char>, b: Seq<char>) -> bool {
    components_less(components(a), components(b))
}

/// The order of lists of components.
pub open spec fn components_less(a: Seq<Seq<char>>, b: Seq<Seq<char>>) -> bool {
    exists|k: int| components_smaller_at(a, b, k)
}

/// The key of a component.
spec fn component_key(c: Seq<char>) -> Seq<u64> {
    seq![component_rank(c)] + text_key(c)
}

proof fn lemma_components_key_front(c: Seq<Seq<char>>)
    requires
        c.len() > 0,
    ensures
        components_key(c) == component_key(c[0]) + components_key(c.drop_first()),
    decreases c.len(),
{
    let rest = c.drop_first();
    if c.len() == 1 {
        assert(c.drop_last() =~= Seq::empty());
        assert(rest =~= Seq::empty());
        assert(components_key(c) =~= component_key(c[0]) + components_key(rest));
    } else {
        lemma_components_key_front(c.drop_last());
        assert(c.drop_last().drop_first() =~= rest.drop_last());
        assert(components_key(c) =~= component_key(c[0]) + components_key(rest));
    }
}

proof fn lemma_component_keys(a: Seq<char>, b: Seq<char>)
    ensures
        key_less(component_key(a), component_key(b)) ==> component_less(a, b),
        component_key(a) == component_key(b) ==> a == b,
        key_begins(component_key(a), component_key(b)) ==> component_key(a) == component_key(b),
{
    let (x, y) = (component_key(a), component_key(b));
    let (r, t) = (seq![component_rank(a)], seq![component_rank(b)]);
    law_text_keys_are_faithful(a, b);
    assert(text_key(a) =~= x.subrange(1, x.len() as int));
    assert(text_key(b) =~= y.subrange(1, y.len() as int));
    if key_less(x, y) {
        assert(key_begins(r, t) ==> r =~= t) by {
            assert(r.subrange(0, 1) =~= r);
        }
        assert(key_begins(t, r) ==> r =~= t) by {
            assert(t.subrange(0, 1) =~= t);
        }
        lemma_joined_keys(r, t, text_key(a), text_key(b));
        if key_less(r, t) {
            let k = choose|k: int| smaller_at(r, t, k);
            assert(k == 0);
            assert(r[0] < t[0]);
        } else {
            assert(r[0] == t[0]);
            if text_key(a) == text_key(b) {
                assert(x =~= y);
                lemma_key_irreflexive(x, y);
            }
        }
    }
    if key_begins(x, y) {
        let n = text_key(b).len() as int;
        assert(text_key(a).subrange(0, n) =~= x.subrange(0, y.len() as int).subrange(1, n + 1));
        law_text_keys_are_separate(a, b);
        assert(x.subrange(0, y.len() as int)[0] == y[0]);
        assert(x =~= y);
    }
}

proof fn lemma_components_order(a: Seq<Seq<char>>, b: Seq<Seq<char>>)
    requires
        key_less(components_key(a).push(0), components_key(b).push(0)),
    ensures
        components_less(a, b),
    decreases a.len(),
{
    let (x, y) = (components_key(a).push(0), components_key(b).push(0));
    if a.len() == 0 {
        if b.len() == 0 {
            assert(x =~= y);
            lemma_key_irreflexive(x, y);
        }
        assert(components_smaller_at(a, b, 0));
    } else if b.len() == 0 {
        let k = choose|k: int| smaller_at(x, y, k);
        assert(k == 0);
        lemma_components_key_front(a);
        assert(x[0] == component_rank(a[0]));
    } else {
        lemma_components_key_front(a);
        lemma_components_key_front(b);
        let (p, q) = (component_key(a[0]), component_key(b[0]));
        let (u, v) = (a.drop_first(), b.drop_first());
        let (m, n) = (components_key(u).push(0), components_key(v).push(0));
        assert(x =~= p + m);
        assert(y =~= q + n);
        lemma_component_keys(a[0], b[0]);
        lemma_component_keys(b[0], a[0]);
        lemma_joined_keys(p, q, m, n);
        if key_less(p, q) {
            assert(components_smaller_at(a, b, 0));
        } else {
            if m == n {
                lemma_key_irreflexive(x, y);
            }
            lemma_components_order(u, v);
            let k = choose|k: int| components_smaller_at(u, v, k);
            assert forall|j: int| 0 <= j < k + 1 implies a[j] == b[j] by {
                if j > 0 {
                    assert(u[j - 1] == v[j - 1]);
                }
            }
            assert(components_smaller_at(a, b, k + 1));
        }
    }
}

proof fn lemma_text_less_asymmetric(a: Seq<char>, b: Seq<char>)
    requires
        text_less(a, b),
    ensures
        !text_less(b, a),
        a != b,
{
    law_text_keys_are_faithful(a, b);
    law_text_keys_are_faithful(b, a);
    lemma_key_irreflexive(text_key(a), text_key(b));
}

proof fn lemma_components_less_asymmetric(a: Seq<Seq<char>>, b: Seq<Seq<char>>)
    requires
        components_less(a, b),
    ensures
        !components_less(b, a),
        a != b,
{
    let i = choose|i: int| components_smaller_at(a, b, i);
    if i < a.len() {
        if text_less(a[i], b[i]) {
            lemma_text_less_asymmetric(a[i], b[i]);
        }
        assert(a[i] != b[i]);
    }
    if components_less(b, a) {
        let j = choose|j: int| components_smaller_at(b, a, j);
        if j < b.len() {
            if text_less(b[j], a[j]) {
                lemma_text_less_asymmetric(b[j], a[j]);
            }
            assert(b[j] != a[j]);
        }
        if i < j {
            assert(b[i] == a[i]);
        } else if j < i {
            assert(a[j] == b[j]);
        }
    }
}

/// The keys of paths are ordered as the paths are: component by component.
pub proof fn law_path_keys_order_paths(a: Seq<char>, b: Seq<char>)
    ensures
        key_less(path_key(a), path_key(b)) <==> path_less(a, b),
{
    if key_less(path_key(a), path_key(b)) {
        lemma_components_order(components(a), components(b));
    }
    if path_less(a, b) {
        lemma_components_less_asymmetric(components(a), components(b));
        lemma_key_total(path_key(a), path_key(b));
        law_path_keys_are_faithful(a, b);
        if key_less(path_key(b), path_key(a)) {
            lemma_components_order(components(b), components(a));
        }
    }
}

/// Appends the key of a path.
pub fn push_path_key(key: &mut Vec<u64>, p: &str)
    ensures
        final(key)@ == old(key)@ + path_key(p@),
{
    let parts: Vec<String> = components_of(p);
    let ghost all = views(parts@);
    let mut i: usize = 0;
    proof {
        reveal_strlit("/");
        reveal_strlit(".");
        reveal_strlit("..");
        assert("/"@ =~= seq!['/']);
        assert("."@ =~= seq!['.']);
        assert(".."@ =~= seq!['.', '.']);
        assert(all.take(0) =~= Seq::empty());
        assert(old(key)@ + components_key(all.take(0)) =~= old(key)@);
    }
    while i < parts.len()
        invariant
            i <= parts.len(),
            all == views(parts@),
            key@ == old(key)@ + components_key(all.take(i as int)),
            "/"@ == seq!['/'],
            "."@ == seq!['.'],
            ".."@ == seq!['.', '.'],
        decreases parts.len() - i,
    {
        let part: &str = parts[i].as_str();
        let rank: u64 = if crate::text::same(part, "/") {
            1
        } else if crate::text::same(part, ".") {
            2
        } else if crate::text::same(part, "..") {
            3
        } else {
            4
        };
        key.push(rank);
        push_text_key(key, part);
        proof {
            let now = all.take(i + 1);
            assert(now.drop_last() =~= all.take(i as int));
            assert(now.last() == part@);
            assert(key@ =~= old(key)@ + components_key(now));
        }
        i += 1;
    }
    key.push(0);
    assert(all.take(parts@.len() as int) =~= all);
    assert(key@ =~= old(key)@ + path_key(p@));
}


proof fn lemma_kept_front(c: Seq<char>, rest: Seq<Seq<char>>)
    ensures
        (seq![c] + rest).filter(|d: Seq<char>| d.len() > 0 && d != seq!['.']) == if c.len() > 0 && c
            != seq!['.'] {
            seq![c] + rest.filter(|d: Seq<char>| d.len() > 0 && d != seq!['.'])
        } else {
            rest.filter(|d: Seq<char>| d.len() > 0 && d != seq!['.'])
        },
    decreases rest.len(),
{
    reveal(Seq::filter);
    let keeps = |d: Seq<char>| d.len() > 0 && d != seq!['.'];
    let all = seq![c] + rest;
    if rest.len() == 0 {
        assert(all =~= seq![c]);
        assert(all.drop_last() =~= Seq::empty());
        assert(all.last() == c);
        assert(all.drop_last().filter(keeps) =~= Seq::empty());
        assert(rest.filter(keeps) =~= Seq::empty());
        assert(Seq::<Seq<char>>::empty().push(c) =~= seq![c] + Seq::<Seq<char>>::empty());
    } else {
        lemma_kept_front(c, rest.drop_last());
        assert(all.drop_last() =~= seq![c] + rest.drop_last());
        assert(all.last() == rest.last());
        assert(all.filter(keeps) =~= if keeps(c) {
            seq![c] + rest.filter(keeps)
        } else {
            rest.filter(keeps)
        });
    }
}

proof fn lemma_slash_at(p: Seq<char>, i: int)
    requires
        0 <= i <= p.len(),
    ensures
        first_occurrence(p, "/"@, i) == if segment_end(p, i) < p.len() {
            Some(segment_end(p, i))
        } else {
            None::<int>
        },
{
    reveal_strlit("/");
    lemma_segment_end(p, i);
    let e = segment_end(p, i);
    assert forall|j: int| i <= j < e implies !occurs_at(p, "/"@, j) by {
        if occurs_at(p, "/"@, j) {
            assert(p.subrange(j, j + 1)[0] == "/"@[0]);
        }
    }
    if e < p.len() {
        assert(p.subrange(e, e + 1) =~= "/"@);
        lemma_first_occurrence_is(p, "/"@, i, e);
    } else {
        lemma_first_occurrence(p, "/"@, i);
    }
}

proof fn lemma_spans_are_pieces(p: Seq<char>, i: int)
    requires
        0 <= i <= p.len(),
    ensures
        span_texts(p, spans_from(p, i)) == pieces_from(p, "/"@, i).filter(
            |d: Seq<char>| d.len() > 0 && d != seq!['.'],
        ),
    decreases p.len() - i,
{
    reveal_strlit("/");
    let keeps = |d: Seq<char>| d.len() > 0 && d != seq!['.'];
    lemma_slash_at(p, i);
    lemma_segment_end(p, i);
    let e = segment_end(p, i);
    let none = Seq::<Seq<char>>::empty();
    let c = p.subrange(i, e);
    lemma_kept_front(c, none);
    assert(none.filter(keeps) =~= none) by {
        reveal(Seq::filter);
    }
    assert(seq![c] + none =~= seq![c]);
    if e == p.len() {
        assert(p.subrange(i, p.len() as int) == c);
        assert(pieces_from(p, "/"@, i) == seq![c]);
        assert(spans_from(p, e) =~= Seq::empty());
        if i == p.len() {
            assert(c.len() == 0);
            assert(span_texts(p, spans_from(p, i)) =~= none);
        } else {
            assert(span_texts(p, spans_from(p, i)) =~= if keeps(c) {
                seq![c]
            } else {
                none
            });
        }
    } else {
        lemma_spans_are_pieces(p, e + 1);
        let rest = pieces_from(p, "/"@, e + 1);
        assert(pieces_from(p, "/"@, i) == seq![c] + rest);
        lemma_kept_front(c, rest);
        assert(spans_from(p, e) == spans_from(p, e + 1));
        if i == e {
            assert(c.len() == 0);
        } else if keeps(c) {
            assert(spans_from(p, i) == seq![(i, e)] + spans_from(p, e + 1));
            assert(span_texts(p, spans_from(p, i)) =~= seq![c] + span_texts(
                p,
                spans_from(p, e + 1),
            ));
        } else {
            assert(spans_from(p, i) == spans_from(p, e + 1));
        }
    }
}

/// The components of a path are the texts between its slashes, without those that are empty and
/// those that are a single dot. In front of them stands the root of a path that begins with a slash,
/// or the dot that a path begins with.
pub proof fn law_components_stand_between_slashes(p: Seq<char>)
    ensures
        components(p) == (if p.len() > 0 && p[0] == '/' {
            seq![seq!['/']]
        } else if p == seq!['.'] || (p.len() > 1 && p[0] == '.' && p[1] == '/') {
            seq![seq!['.']]
        } else {
            Seq::empty()
        }) + pieces(p, "/"@).filter(|c: Seq<char>| c.len() > 0 && c != seq!['.']),
{
    let keeps = |d: Seq<char>| d.len() > 0 && d != seq!['.'];
    let kept = pieces(p, "/"@).filter(keeps);
    lemma_spans_are_pieces(p, 0);
    let dotted = p.len() > 0 && p[0] == '.' && (p.len() == 1 || p[1] == '/');
    assert(p == seq!['.'] <==> p.len() == 1 && p[0] == '.') by {
        if p.len() == 1 && p[0] == '.' {
            assert(p =~= seq!['.']);
        }
    }
    if is_rooted(p) {
        assert(spans_from(p, 0) == spans_from(p, 1));
        assert(p.subrange(0, 1) =~= seq!['/']);
        assert(components(p) =~= seq![seq!['/']] + kept);
    } else if dotted {
        assert(segment_end(p, 1) == 1);
        assert(segment_end(p, 0) == 1);
        assert(p.subrange(0, 1) =~= seq!['.']);
        assert(spans_from(p, 0) == spans_from(p, 1));
        assert(components(p) =~= seq![seq!['.']] + kept);
    } else {
        assert(components(p) =~= Seq::<Seq<char>>::empty() + kept);
    }
}

spec fn is_boundary(p: Seq<char>, e: int) -> bool {
    0 <= e <= p.len() && (e == p.len() || p[e] == '/' || (e > 0 && p[e - 1] == '/'))
}

proof fn lemma_segment_end_before(p: Seq<char>, i: int, e: int)
    requires
        0 <= i < e,
        is_boundary(p, e),
        p[i] != '/',
    ensures
        segment_end(p, i) <= e,
        segment_end(p.subrange(0, e), i) == segment_end(p, i),
    decreases e - i,
{
    let q = p.subrange(0, e);
    assert(q[i] == p[i]);
    if i + 1 < e {
        if p[i + 1] != '/' {
            lemma_segment_end_before(p, i + 1, e);
        } else {
            assert(q[i + 1] == '/');
            assert(segment_end(p, i + 1) == i + 1);
            assert(segment_end(q, i + 1) == i + 1);
        }
    } else {
        assert(segment_end(q, e) == e);
        assert(segment_end(p, e) == e);
    }
}

proof fn lemma_spans_split(p: Seq<char>, i: int, e: int)
    requires
        0 <= i <= e,
        is_boundary(p, e),
    ensures
        spans_from(p, i) == spans_from(p.subrange(0, e), i) + spans_from(p, e),
    decreases e - i,
{
    let q = p.subrange(0, e);
    if i == e {
        assert(spans_from(q, i) =~= Seq::empty());
        assert(spans_from(p, i) =~= spans_from(q, i) + spans_from(p, e));
    } else if p[i] == '/' {
        assert(q[i] == '/');
        lemma_spans_split(p, i + 1, e);
    } else {
        assert(q[i] == p[i]);
        lemma_segment_end_before(p, i, e);
        lemma_segment_end(p, i);
        let end = segment_end(p, i);
        lemma_spans_split(p, end, e);
        assert(q.subrange(i, end) =~= p.subrange(i, end));
        assert(spans_from(p, i) =~= spans_from(q, i) + spans_from(p, e));
    }
}

proof fn lemma_spans_shift(front: Seq<char>, t: Seq<char>, i: int)
    requires
        0 <= i <= t.len(),
    ensures
        span_texts(front + t, spans_from(front + t, front.len() + i)) == span_texts(
            t,
            spans_from(t, i),
        ),
    decreases t.len() - i,
{
    let p = front + t;
    let k = front.len() as int;
    if i < t.len() {
        assert(p[k + i] == t[i]);
        if t[i] == '/' {
            lemma_spans_shift(front, t, i + 1);
        } else {
            lemma_segment_end_shift(front, t, i);
            lemma_segment_end(t, i);
            let e = segment_end(t, i);
            assert(p.subrange(k + i, k + e) =~= t.subrange(i, e));
            lemma_spans_shift(front, t, e);
            if t.subrange(i, e) != seq!['.'] {
                assert(span_texts(p, spans_from(p, k + i)) =~= seq![t.subrange(i, e)] + span_texts(
                    p,
                    spans_from(p, k + e),
                ));
                assert(span_texts(t, spans_from(t, i)) =~= seq![t.subrange(i, e)] + span_texts(
                    t,
                    spans_from(t, e),
                ));
            }
        }
    } else {
        assert(span_texts(p, spans_from(p, k + i)) =~= span_texts(t, spans_from(t, i)));
    }
}

proof fn lemma_segment_end_shift(front: Seq<char>, t: Seq<char>, i: int)
    requires
        0 <= i <= t.len(),
    ensures
        segment_end(front + t, front.len() + i) == front.len() + segment_end(t, i),
    decreases t.len() - i,
{
    let p = front + t;
    if i < t.len() {
        assert(p[front.len() + i] == t[i]);
        if t[i] != '/' {
            lemma_segment_end_shift(front, t, i + 1);
        }
    }
}

proof fn lemma_front_spans(p: Seq<char>, e: int)
    requires
        0 < e,
        is_boundary(p, e),
    ensures
        spans(p) == spans(p.subrange(0, e)) + spans_from(p, e),
{
    let q = p.subrange(0, e);
    assert(q[0] == p[0]);
    if is_rooted(p) {
        lemma_spans_split(p, 1, e);
        assert(spans(p) =~= spans(q) + spans_from(p, e));
    } else if p[0] == '.' && (p.len() == 1 || p[1] == '/') {
        if e > 1 {
            assert(q[1] == p[1]);
        }
        lemma_spans_split(p, 1, e);
        assert(spans(p) =~= spans(q) + spans_from(p, e));
    } else {
        if e > 1 {
            assert(q[1] == p[1]);
        }
        lemma_spans_split(p, 0, e);
    }
}

/// Joining a path to a directory puts its components behind those of the directory; a path that is
/// absolute stands for itself.
pub proof fn law_joining_puts_components_behind(base: Seq<char>, p: Seq<char>)
    ensures
        p.len() > 0 && p[0] == '/' ==> joined_path(base, p) == p,
        base.len() > 0 && !(p.len() > 0 && p[0] == '/') && p != seq!['.'] && !(p.len() > 1 && p[0]
            == '.' && p[1] == '/') ==> components(joined_path(base, p)) == components(base)
            + components(p),
        base.len() == 0 ==> joined_path(base, p) == p,
{
    if base.len() == 0 {
        assert(base + p =~= p);
    }
    if base.len() > 0 && !is_rooted(p) && p != seq!['.'] && !(p.len() > 1 && p[0] == '.' && p[1]
        == '/') {
        if p.len() == 1 && p[0] == '.' {
            assert(p =~= seq!['.']);
        }
        let q = joined_path(base, p);
        let e = base.len() as int;
        assert(q.subrange(0, e) =~= base);
        lemma_front_spans(q, e);
        if base.last() != '/' {
            let front = base + seq!['/'];
            assert(q == front + p);
            assert(q[e] == '/');
            assert(spans_from(q, e) == spans_from(q, e + 1));
            lemma_spans_shift(front, p, 0);
        } else {
            lemma_spans_shift(base, p, 0);
        }
        lemma_spans(base);
        let s = spans(base);
        assert forall|i: int| 0 <= i < s.len() implies q.subrange(s[i].0, s[i].1) == base.subrange(
            (#[trigger] s[i]).0,
            s[i].1,
        ) by {
            assert(q.subrange(s[i].0, s[i].1) =~= base.subrange(s[i].0, s[i].1));
        }
        assert(components(q) =~= components(base) + components(p));
    }
}

proof fn lemma_span_ends(p: Seq<char>, i: int)
    requires
        0 <= i,
    ensures
        forall|k: int|
            0 <= k < spans_from(p, i).len() ==> is_boundary(p, (#[trigger] spans_from(p, i)[k]).1),
    decreases p.len() - i,
{
    if i < p.len() {
        if p[i] == '/' {
            lemma_span_ends(p, i + 1);
            assert(spans_from(p, i) == spans_from(p, i + 1));
        } else {
            lemma_segment_end(p, i);
            let e = segment_end(p, i);
            lemma_span_ends(p, e);
            let all = spans_from(p, i);
            let rest = spans_from(p, e);
            if p.subrange(i, e) == seq!['.'] {
                assert(all == rest);
            } else {
                assert(all == seq![(i, e)] + rest);
                assert forall|k: int| 0 <= k < all.len() implies is_boundary(
                    p,
                    (#[trigger] all[k]).1,
                ) by {
                    if k > 0 {
                        assert(all[k] == rest[k - 1]);
                    }
                }
            }
        }
    }
}

proof fn lemma_ends_are_boundaries(p: Seq<char>, k: int)
    requires
        0 <= k < spans(p).len(),
    ensures
        is_boundary(p, spans(p)[k].1),
{
    lemma_span_ends(p, 0);
    lemma_span_ends(p, 1);
    if is_rooted(p) || (p.len() > 0 && p[0] == '.' && (p.len() == 1 || p[1] == '/')) {
        if k > 0 {
            assert(spans(p)[k] == spans_from(p, 1)[k - 1]);
        }
    }
}

/// The parent of a path is the front of its text that holds all its components but the last. There
/// is none for the root and for a path without components. The name of a file is its last
/// component, unless that is the root, a dot or two dots.
pub proof fn law_parent_leaves_the_last_component_out(p: Seq<char>)
    ensures
        parent_of(p) is None <==> components(p).len() == 0 || (components(p).len() == 1 && p[0]
            == '/'),
        parent_of(p) matches Some(q) ==> components(q) == components(p).drop_last() && q.len()
            <= p.len() && q == p.subrange(0, q.len() as int),
        match file_name_of(p) {
            Some(name) => components(p).len() > 0 && components(p).last() == name && name != seq![
                '/',
            ] && name != seq!['.'] && name != seq!['.', '.'],
            None => components(p).len() > 0 ==> components(p).last() == seq!['/'] || components(
                p,
            ).last() == seq!['.'] || components(p).last() == seq!['.', '.'],
        },
{
    let s = spans(p);
    lemma_spans(p);
    if p.len() == 0 {
        assert(s.len() == 0);
    }
    if s.len() == 1 && !is_rooted(p) {
        let q = Seq::<char>::empty();
        assert(spans(q) =~= Seq::empty());
        assert(components(q) =~= components(p).drop_last());
        assert(p.subrange(0, 0) =~= q);
    } else if s.len() > 1 {
        let n = s.len() as int;
        let e = s[n - 2].1;
        lemma_ends_are_boundaries(p, n - 2);
        lemma_front_spans(p, e);
        let q = p.subrange(0, e);
        let t = spans(q);
        let rest = spans_from(p, e);
        lemma_spans(q);
        lemma_spans_from(p, e);
        if t.len() <= n - 2 {
            assert(s[n - 2] == rest[n - 2 - t.len()]);
            assert(false);
        }
        if t.len() > n - 1 {
            assert(s[n - 1] == t[n - 1]);
            assert(s[n - 2].1 <= s[n - 1].0);
            assert(false);
        }
        assert(t.len() == n - 1);
        assert forall|i: int| 0 <= i < n - 1 implies q.subrange(t[i].0, t[i].1) == p.subrange(
            (#[trigger] s[i]).0,
            s[i].1,
        ) by {
            assert(t[i] == s[i]);
            assert(q.subrange(t[i].0, t[i].1) =~= p.subrange(s[i].0, s[i].1));
        }
        assert(components(q) =~= components(p).drop_last());
    }
}

/// A name without a slash, which is neither empty nor a dot, is its own single component; what is
/// joined to a directory has the directory as its parent and the name as its name.
pub proof fn law_joined_name_is_found_again(base: Seq<char>, name: Seq<char>)
    requires
        base.len() > 0,
        name.len() > 0,
        forall|i: int| 0 <= i < name.len() ==> #[trigger] name[i] != '/',
        name != seq!['.'],
        name != seq!['.', '.'],
    ensures
        components(name) == seq![name],
        components(joined_path(base, name)) == components(base).push(name),
        file_name_of(joined_path(base, name)) == Some(name),
        parent_of(joined_path(base, name)) matches Some(q) ==> same_path_text(q, base),
        components(base).len() > 0 ==> parent_of(joined_path(base, name)) is Some,
{
    lemma_segment_end(name, 0);
    let e = segment_end(name, 0);
    assert(e == name.len());
    assert(name.subrange(0, e) =~= name);
    assert(spans_from(name, e) =~= Seq::empty());
    assert(spans_from(name, 0) =~= seq![(0int, e)]);
    assert(!(name.len() == 1 && name[0] == '.')) by {
        if name.len() == 1 && name[0] == '.' {
            assert(name =~= seq!['.']);
        }
    }
    assert(spans(name) == spans_from(name, 0));
    assert(components(name) =~= seq![name]);
    law_joining_puts_components_behind(base, name);
    let p = joined_path(base, name);
    assert(components(base) + seq![name] =~= components(base).push(name));
    assert(components(p).last() == name);
    assert(name != seq!['/']) by {
        if name == seq!['/'] {
            assert(name[0] == '/');
        }
    }
    law_parent_leaves_the_last_component_out(p);
    assert(components(p).drop_last() =~= components(base));
}

proof fn lemma_spans_at(p: Seq<char>, i: int, k: int)
    requires
        0 <= i,
        0 <= k < spans_from(p, i).len(),
    ensures
        spans_from(p, spans_from(p, i)[k].0) == spans_from(p, i).skip(k),
        p[spans_from(p, i)[k].0] != '/',
        p.subrange(spans_from(p, i)[k].0, spans_from(p, i)[k].1) != seq!['.'],
        spans_from(p, i)[k].1 == segment_end(p, spans_from(p, i)[k].0),
    decreases p.len() - i,
{
    let all = spans_from(p, i);
    if p[i] == '/' {
        lemma_spans_at(p, i + 1, k);
    } else {
        lemma_segment_end(p, i);
        let e = segment_end(p, i);
        let rest = spans_from(p, e);
        if p.subrange(i, e) == seq!['.'] {
            lemma_spans_at(p, e, k);
        } else {
            assert(all == seq![(i, e)] + rest);
            if k == 0 {
                assert(all.skip(0) =~= all);
            } else {
                assert(all[k] == rest[k - 1]);
                lemma_spans_at(p, e, k - 1);
                assert(all.skip(k) =~= rest.skip(k - 1));
            }
        }
    }
}

/// A path lies within a directory whose components it begins with. What is below the directory has
/// the other components, so that joining it to the directory gives the path again.
pub proof fn law_path_below_has_the_other_components(p: Seq<char>, base: Seq<char>)
    ensures
        is_within(p, base) <==> exists|c: Seq<Seq<char>>| components(p) == #[trigger] (components(
            base,
        ) + c),
        below(p, base) is Some <==> is_within(p, base),
        components(base).len() > 0 ==> (below(p, base) matches Some(q) ==> components(p)
            == components(base) + components(q) && same_path_text(joined_path(base, q), p)),
{
    let c = components(p);
    let b = components(base);
    let k = b.len() as int;
    if is_within(p, base) {
        assert(c =~= b + c.skip(k));
    }
    assert forall|d: Seq<Seq<char>>| c == #[trigger] (b + d) implies is_within(p, base) by {
        assert(c.subrange(0, k) =~= b);
    }
    if k > 0 && is_within(p, base) {
        let s = spans(p);
        let q = below(p, base)->Some_0;
        lemma_spans(p);
        assert(base.len() > 0) by {
            if base.len() == 0 {
                assert(spans(base).len() == 0);
            }
        }
        if k == s.len() {
            assert(q.len() == 0);
            assert(spans(q) =~= Seq::empty());
            assert(components(q) =~= Seq::empty());
            assert(c =~= b + components(q));
        } else {
            let n = s.len() as int;
            let (from, to) = (s[k].0, s[n - 1].1);
            let headed = is_rooted(p) || (p.len() > 0 && p[0] == '.' && (p.len() == 1 || p[1]
                == '/'));
            let i: int = if headed {
                1
            } else {
                0
            };
            let tail = spans_from(p, i);
            assert(s[k] == tail[k - i]);
            lemma_spans_at(p, i, k - i);
            assert(tail.skip(k - i) =~= s.skip(k));
            assert(spans_from(p, from) == s.skip(k));
            lemma_ends_are_boundaries(p, n - 1);
            lemma_spans_split(p, from, to);
            let front = p.subrange(0, to);
            let x = spans_from(front, from);
            let y = spans_from(p, to);
            lemma_spans_from(p, to);
            assert(y.len() == 0) by {
                if y.len() > 0 {
                    assert((x + y).last() == y.last());
                    assert(s.skip(k).last() == s[n - 1]);
                }
            }
            assert(x =~= s.skip(k));
            let before = p.subrange(0, from);
            assert(before + q =~= front);
            lemma_spans_shift(before, q, 0);
            assert(q[0] == p[from]);
            assert(spans(q) == spans_from(q, 0)) by {
                if q[0] == '.' && (q.len() == 1 || q[1] == '/') {
                    lemma_segment_end(p, from);
                    let e = segment_end(p, from);
                    assert(e == s[k].1);
                    if q.len() > 1 {
                        assert(p[from + 1] == '/');
                    }
                    assert(e == from + 1);
                    assert(p.subrange(from, e) =~= seq!['.']);
                    assert(false);
                }
            }
            assert forall|j: int| 0 <= j < x.len() implies front.subrange(x[j].0, x[j].1)
                == p.subrange((#[trigger] x[j]).0, x[j].1) by {
                assert(x[j] == s[k + j]);
                assert(s[k + j].1 <= to);
                assert(front.subrange(x[j].0, x[j].1) =~= p.subrange(x[j].0, x[j].1));
            }
            assert(components(q) =~= c.skip(k));
            assert(c =~= b + components(q));
            assert(!is_rooted(q));
            assert(q != seq!['.'] && !(q.len() > 1 && q[0] == '.' && q[1] == '/')) by {
                if q[0] == '.' && (q.len() == 1 || q[1] == '/') {
                    assert(spans(q).len() == 1 + spans_from(q, 1).len());
                    assert(segment_end(q, 1) == 1);
                    assert(segment_end(q, 0) == 1);
                    assert(q.subrange(0, 1) =~= seq!['.']);
                    assert(spans_from(q, 0) == spans_from(q, 1));
                }
            }
        }
        law_joining_puts_components_behind(base, q);
    }
}

/// A path has a tail whose components it ends with. The directory of a path is its parent, or the
/// root where it has none.
pub proof fn law_tail_is_the_last_components(p: Seq<char>, tail: Seq<char>)
    ensures
        has_tail(p, tail) <==> exists|c: Seq<Seq<char>>| components(p) == #[trigger] (c
            + components(tail)),
        components(p).len() > 1 ==> components(directory_of(p)) == components(p).drop_last(),
        components(p).len() == 0 || (components(p).len() == 1 && p[0] == '/') ==> directory_of(p)
            == seq!['/'],
{
    let c = components(p);
    let t = components(tail);
    let k = c.len() - t.len();
    if has_tail(p, tail) {
        assert(c =~= c.take(k) + t);
    }
    assert forall|d: Seq<Seq<char>>| c == #[trigger] (d + t) implies has_tail(p, tail) by {
        assert(c.subrange(k, c.len() as int) =~= t);
    }
    law_parent_leaves_the_last_component_out(p);
}

} // verus!
