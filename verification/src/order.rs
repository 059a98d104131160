//! Orders: lexicographic keys and stable sorting by key.

#[allow(unused_imports)]
use crate::text::all_views;
use crate::text::chars_of;
use vstd::prelude::*;

verus! {

/// Whether `a` and `b` first differ at `k`, `a` being the smaller there or ending there.
pub open spec fn smaller_at(a: Seq<u64>, b: Seq<u64>, k: int) -> bool {
    &&& 0 <= k <= a.len()
    &&& k < b.len()
    &&& forall|j: int| 0 <= j < k ==> a[j] == b[j]
    &&& k == a.len() || a[k] < b[k]
}

/// The lexicographic order of keys.
pub open spec fn key_less(a: Seq<u64>, b: Seq<u64>) -> bool {
    exists|k: int| smaller_at(a, b, k)
}

/// The place of a character in a key: its code point, counted from one.
pub open spec fn letter(c: char) -> u64 {
    (c as u64 + 1) as u64
}

/// A key whose order is the order of texts by their characters.
pub open spec fn text_key(s: Seq<char>) -> Seq<u64> {
    Seq::new(s.len(), |i: int| letter(s[i])).push(0)
}

/// Of two different keys one is the smaller.
pub proof fn lemma_key_total(a: Seq<u64>, b: Seq<u64>)
    ensures
        key_less(a, b) || key_less(b, a) || a == b,
{
    lemma_key_total_from(a, b, 0);
}

proof fn lemma_key_total_from(a: Seq<u64>, b: Seq<u64>, k: int)
    requires
        0 <= k <= a.len(),
        k <= b.len(),
        forall|j: int| 0 <= j < k ==> a[j] == b[j],
    ensures
        key_less(a, b) || key_less(b, a) || a == b,
    decreases a.len() - k,
{
    if k == a.len() {
        if k == b.len() {
            assert(a =~= b);
        } else {
            assert(smaller_at(a, b, k));
        }
    } else if k == b.len() {
        assert(smaller_at(b, a, k));
    } else if a[k] < b[k] {
        assert(smaller_at(a, b, k));
    } else if b[k] < a[k] {
        assert(smaller_at(b, a, k));
    } else {
        lemma_key_total_from(a, b, k + 1);
    }
}

pub proof fn lemma_key_transitive(a: Seq<u64>, b: Seq<u64>, c: Seq<u64>)
    requires
        key_less(a, b),
        key_less(b, c),
    ensures
        key_less(a, c),
{
    let i = choose|i: int| smaller_at(a, b, i);
    let j = choose|j: int| smaller_at(b, c, j);
    if i <= j {
        assert(smaller_at(a, c, i));
    } else {
        assert(smaller_at(a, c, j));
    }
}

pub proof fn lemma_key_irreflexive(a: Seq<u64>, b: Seq<u64>)
    requires
        key_less(a, b),
    ensures
        !key_less(b, a),
        a != b,
{
    let i = choose|i: int| smaller_at(a, b, i);
    if key_less(b, a) {
        let j = choose|j: int| smaller_at(b, a, j);
        if i < j {
        } else if j < i {
        }
    }
}

/// Whether a key comes no later than another.
pub open spec fn key_at_most(a: Seq<u64>, b: Seq<u64>) -> bool {
    key_less(a, b) || a == b
}

/// Whether a key begins with another.
pub open spec fn key_begins(a: Seq<u64>, b: Seq<u64>) -> bool {
    b.len() <= a.len() && a.subrange(0, b.len() as int) == b
}

/// Keys that are put together are ordered by their first parts, and by their second parts where
/// the first are equal, provided that neither first part is the beginning of another one.
pub proof fn lemma_joined_keys(a: Seq<u64>, b: Seq<u64>, x: Seq<u64>, y: Seq<u64>)
    requires
        key_at_most(a + x, b + y),
        key_begins(a, b) ==> a == b,
        key_begins(b, a) ==> a == b,
    ensures
        key_less(a, b) || (a == b && key_at_most(x, y)),
{
    lemma_key_total(a, b);
    if key_less(b, a) {
        let k = choose|k: int| smaller_at(b, a, k);
        if k == b.len() {
            assert(a.subrange(0, b.len() as int) =~= b);
            lemma_key_irreflexive(b, a);
        } else {
            assert(smaller_at(b + y, a + x, k));
            lemma_key_irreflexive(b + y, a + x);
        }
    } else if a == b {
        let n = a.len() as int;
        assert(x =~= (a + x).subrange(n, n + x.len()));
        assert(y =~= (b + y).subrange(n, n + y.len()));
        if key_less(a + x, b + y) {
            let k = choose|k: int| smaller_at(a + x, b + y, k);
            assert(k >= n);
            assert forall|j: int| 0 <= j < k - n implies x[j] == y[j] by {
                assert((a + x)[n + j] == (b + y)[n + j]);
            }
            assert(smaller_at(x, y, k - n));
        }
    }
}

/// Whether two texts first differ at `k`, `a` having the smaller character there or ending there.
pub open spec fn text_smaller_at(a: Seq<char>, b: Seq<char>, k: int) -> bool {
    &&& 0 <= k <= a.len()
    &&& k < b.len()
    &&& forall|j: int| 0 <= j < k ==> a[j] == b[j]
    &&& k == a.len() || (a[k] as u32) < (b[k] as u32)
}

/// The order of texts by their characters.
pub open spec fn text_less(a: Seq<char>, b: Seq<char>) -> bool {
    exists|k: int| text_smaller_at(a, b, k)
}

pub proof fn lemma_letter(a: char, b: char)
    ensures
        letter(a) > 0,
        letter(a) == letter(b) ==> a == b,
        letter(a) < letter(b) <==> (a as u32) < (b as u32),
{
    assert(a as u32 <= 0x10ffff && b as u32 <= 0x10ffff);
}

/// The keys of texts are ordered as the texts are, and no two texts have one key.
pub proof fn law_text_keys_are_faithful(a: Seq<char>, b: Seq<char>)
    ensures
        key_less(text_key(a), text_key(b)) <==> text_less(a, b),
        text_key(a) == text_key(b) ==> a == b,
{
    let (x, y) = (text_key(a), text_key(b));
    assert forall|j: int| 0 <= j < a.len() && j < b.len() implies (#[trigger] x[j] == y[j]
        <==> a[j] == b[j]) && (x[j] < y[j] <==> (a[j] as u32) < (b[j] as u32)) by {
        lemma_letter(a[j], b[j]);
    }
    assert forall|j: int| 0 <= j < a.len() implies #[trigger] x[j] > 0 by {
        lemma_letter(a[j], a[j]);
    }
    assert forall|j: int| 0 <= j < b.len() implies #[trigger] y[j] > 0 by {
        lemma_letter(b[j], b[j]);
    }
    assert(x[a.len() as int] == 0 && y[b.len() as int] == 0);
    if key_less(x, y) {
        let k = choose|k: int| smaller_at(x, y, k);
        if k > b.len() || (k > a.len() && k <= b.len()) {
            assert(x[a.len() as int] == y[a.len() as int]);
        }
        assert(k <= a.len() && k < b.len());
        assert forall|j: int| 0 <= j < k implies a[j] == b[j] by {
            assert(x[j] == y[j]);
        }
        assert(text_smaller_at(a, b, k));
    }
    if text_less(a, b) {
        let k = choose|k: int| text_smaller_at(a, b, k);
        assert forall|j: int| 0 <= j < k implies x[j] == y[j] by {
            assert(a[j] == b[j]);
        }
        assert(smaller_at(x, y, k));
    }
    if x == y {
        assert(x.len() == a.len() + 1 && y.len() == b.len() + 1);
        assert forall|j: int| 0 <= j < a.len() implies a[j] == b[j] by {
            assert(x[j] == y[j]);
        }
        assert(a =~= b);
    }
}

/// No key of a text is the beginning of that of another text.
pub proof fn law_text_keys_are_separate(a: Seq<char>, b: Seq<char>)
    requires
        key_begins(text_key(a), text_key(b)),
    ensures
        text_key(a) == text_key(b),
{
    let (x, y) = (text_key(a), text_key(b));
    let n = b.len() as int;
    assert(x.subrange(0, y.len() as int)[n] == y[n]);
    if n < a.len() {
        lemma_letter(a[n], a[n]);
    }
    assert(x =~= y);
}

/// The lexicographic order of keys.
pub fn less(a: &Vec<u64>, b: &Vec<u64>) -> (r: bool)
    ensures
        r == key_less(a@, b@),
{
    let mut k: usize = 0;
    while k < a.len() && k < b.len()
        invariant
            k <= a.len(),
            k <= b.len(),
            forall|j: int| 0 <= j < k ==> a@[j] == b@[j],
        decreases a.len() - k,
    {
        if a[k] < b[k] {
            assert(smaller_at(a@, b@, k as int));
            return true;
        }
        if a[k] > b[k] {
            assert(smaller_at(b@, a@, k as int));
            proof {
                lemma_key_irreflexive(b@, a@);
            }
            return false;
        }
        k += 1;
    }
    if k < b.len() {
        assert(smaller_at(a@, b@, k as int));
        true
    } else {
        proof {
            if k < a.len() {
                assert(smaller_at(b@, a@, k as int));
                lemma_key_irreflexive(b@, a@);
            } else {
                assert(a@ =~= b@);
                if key_less(a@, b@) {
                    lemma_key_irreflexive(a@, b@);
                }
            }
        }
        false
    }
}

/// The first place at or after `from` in `order` whose key is greater than `key`.
pub open spec fn slot_from(
    order: Seq<int>,
    keys: Seq<Seq<u64>>,
    key: Seq<u64>,
    from: int,
) -> int
    decreases order.len() - from,
{
    if from < 0 || from >= order.len() {
        from
    } else if key_less(key, keys[order[from]]) {
        from
    } else {
        slot_from(order, keys, key, from + 1)
    }
}

/// The indices of `keys` in the order of the keys, equal keys in the order of their indices.
pub open spec fn stable_order(keys: Seq<Seq<u64>>) -> Seq<int>
    decreases keys.len(),
{
    if keys.len() == 0 {
        Seq::empty()
    } else {
        let rest = stable_order(keys.drop_last());
        rest.insert(slot_from(rest, keys, keys.last(), 0), keys.len() - 1)
    }
}

/// Whether index `a` comes before index `b`.
pub open spec fn comes_before(keys: Seq<Seq<u64>>, a: int, b: int) -> bool {
    key_less(keys[a], keys[b]) || (keys[a] == keys[b] && a < b)
}

/// Whether `order` lists every index once, each before its successors.
pub open spec fn is_stable_order(order: Seq<int>, keys: Seq<Seq<u64>>) -> bool {
    &&& order.len() == keys.len()
    &&& forall|i: int| 0 <= i < order.len() ==> 0 <= #[trigger] order[i] < keys.len()
    &&& forall|i: int, j: int|
        0 <= i < j < order.len() ==> comes_before(keys, #[trigger] order[i], #[trigger] order[j])
}

proof fn lemma_slot(order: Seq<int>, keys: Seq<Seq<u64>>, key: Seq<u64>, from: int)
    requires
        0 <= from <= order.len(),
    ensures
        from <= slot_from(order, keys, key, from) <= order.len(),
        forall|i: int|
            from <= i < slot_from(order, keys, key, from) ==> !key_less(key, keys[#[trigger] order[i]]),
        slot_from(order, keys, key, from) < order.len() ==> key_less(
            key,
            keys[order[slot_from(order, keys, key, from)]],
        ),
    decreases order.len() - from,
{
    if from < order.len() && !key_less(key, keys[order[from]]) {
        lemma_slot(order, keys, key, from + 1);
    }
}

/// Sorting is sorting: the result holds every index once, keys never descend, and equal keys
/// keep the order of their indices.
pub proof fn law_stable_order(keys: Seq<Seq<u64>>)
    ensures
        is_stable_order(stable_order(keys), keys),
    decreases keys.len(),
{
    if keys.len() > 0 {
        let front = keys.drop_last();
        let n = keys.len() - 1;
        law_stable_order(front);
        let rest = stable_order(front);
        lemma_slot(rest, keys, keys.last(), 0);
        let at = slot_from(rest, keys, keys.last(), 0);
        let order = stable_order(keys);
        assert(order =~= rest.insert(at, n));
        assert forall|i: int, j: int| 0 <= i < j < order.len() implies comes_before(
            keys,
            #[trigger] order[i],
            #[trigger] order[j],
        ) by {
            if j < at {
                assert(order[i] == rest[i] && order[j] == rest[j]);
                assert(comes_before(front, rest[i], rest[j]));
            } else if j == at {
                assert(order[i] == rest[i]);
                lemma_key_total(keys[rest[i]], keys[n]);
            } else {
                assert(order[j] == rest[j - 1]);
                if i < at {
                    assert(order[i] == rest[i]);
                    assert(comes_before(front, rest[i], rest[j - 1]));
                } else if i == at {
                    if j - 1 > at {
                        assert(comes_before(front, rest[at], rest[j - 1]));
                        if keys[rest[at]] != keys[rest[j - 1]] {
                            lemma_key_transitive(keys[n], keys[rest[at]], keys[rest[j - 1]]);
                        }
                    }
                } else {
                    assert(order[i] == rest[i - 1]);
                    assert(comes_before(front, rest[i - 1], rest[j - 1]));
                }
            }
        }
        assert forall|i: int| 0 <= i < order.len() implies 0 <= #[trigger] order[i] < keys.len() by {
            if i < at {
                assert(order[i] == rest[i]);
            } else if i > at {
                assert(order[i] == rest[i - 1]);
            }
        }
    }
}

/// Whether each key comes before its successors.
pub open spec fn ascends(keys: Seq<Seq<u64>>) -> bool {
    forall|i: int, j: int|
        0 <= i < j < keys.len() ==> key_less(#[trigger] keys[i], #[trigger] keys[j])
}

/// Ascending keys are fixed by which keys there are.
pub proof fn lemma_same_ascending(a: Seq<Seq<u64>>, b: Seq<Seq<u64>>)
    requires
        ascends(a),
        ascends(b),
        forall|x: Seq<u64>| #[trigger] a.contains(x) <==> b.contains(x),
    ensures
        a == b,
    decreases a.len(),
{
    if a.len() == 0 {
        if b.len() > 0 {
            assert(b.contains(b[0]));
            assert(a.contains(b[0]));
        }
        assert(a =~= b);
    } else {
        assert(a.contains(a.last()));
        assert(b.contains(a.last()));
        let i = choose|i: int| 0 <= i < b.len() && b[i] == a.last();
        assert(b.contains(b.last()));
        assert(a.contains(b.last()));
        let j = choose|j: int| 0 <= j < a.len() && a[j] == b.last();
        if i < b.len() - 1 {
            assert(key_less(b[i], b[b.len() - 1]));
            if j < a.len() - 1 {
                assert(key_less(a[j], a[a.len() - 1]));
                lemma_key_irreflexive(a.last(), b.last());
            } else {
                lemma_key_irreflexive(a.last(), b.last());
            }
        }
        assert(a.last() == b.last());
        let (x, y) = (a.drop_last(), b.drop_last());
        assert forall|k: Seq<u64>| #[trigger] x.contains(k) <==> y.contains(k) by {
            if x.contains(k) {
                let n = choose|n: int| 0 <= n < x.len() && x[n] == k;
                assert(a[n] == k);
                assert(a.contains(k));
                assert(key_less(a[n], a[a.len() - 1]));
                lemma_key_irreflexive(k, a.last());
                let m = choose|m: int| 0 <= m < b.len() && b[m] == k;
                assert(y[m] == k);
            }
            if y.contains(k) {
                let n = choose|n: int| 0 <= n < y.len() && y[n] == k;
                assert(b[n] == k);
                assert(b.contains(k));
                assert(key_less(b[n], b[b.len() - 1]));
                lemma_key_irreflexive(k, b.last());
                assert(a.contains(k));
                let m = choose|m: int| 0 <= m < a.len() && a[m] == k;
                assert(x[m] == k);
            }
        }
        lemma_same_ascending(x, y);
        assert(a =~= x.push(a.last()));
        assert(b =~= y.push(b.last()));
    }
}

/// The keys of a vector of key vectors.
pub open spec fn key_views(keys: Seq<Vec<u64>>) -> Seq<Seq<u64>> {
    Seq::new(keys.len(), |i: int| keys[i]@)
}

/// Indices as mathematical integers.
pub open spec fn index_views(order: Seq<usize>) -> Seq<int> {
    Seq::new(order.len(), |i: int| order[i] as int)
}

/// The items at the places that `order` lists.
pub open spec fn arranged<T>(items: Seq<T>, order: Seq<int>) -> Seq<T> {
    Seq::new(order.len(), |i: int| items[order[i]])
}

/// The items in the order of their keys, equal keys in the order in which they came.
pub open spec fn sorted_by_key<T>(items: Seq<T>, keys: Seq<Seq<u64>>) -> Seq<T> {
    arranged(items, stable_order(keys))
}

/// Sorting by key keeps every item, as often as it was there.
pub proof fn law_sorting_keeps_items<T>(items: Seq<T>, keys: Seq<Seq<u64>>)
    requires
        items.len() == keys.len(),
    ensures
        sorted_by_key(items, keys).to_multiset() == items.to_multiset(),
        sorted_by_key(items, keys).len() == items.len(),
        forall|x: T| sorted_by_key(items, keys).contains(x) <==> items.contains(x),
    decreases items.len(),
{
    broadcast use vstd::seq_lib::group_to_multiset_ensures;

    law_stable_order(keys);
    let sorted = sorted_by_key(items, keys);
    if items.len() == 0 {
        assert(sorted =~= items);
    } else {
        let front = keys.drop_last();
        let n = keys.len() - 1;
        law_sorting_keeps_items(items.drop_last(), front);
        law_stable_order(front);
        let rest = stable_order(front);
        lemma_slot(rest, keys, keys.last(), 0);
        let at = slot_from(rest, keys, keys.last(), 0);
        let before = sorted_by_key(items.drop_last(), front);
        assert(sorted =~= before.insert(at, items.last())) by {
            assert forall|i: int| 0 <= i < sorted.len() implies #[trigger] sorted[i]
                == before.insert(at, items.last())[i] by {
                if i < at {
                    assert(rest.insert(at, n)[i] == rest[i]);
                } else if i > at {
                    assert(rest.insert(at, n)[i] == rest[i - 1]);
                }
            }
        }
        vstd::seq_lib::to_multiset_insert(before, at, items.last());
        vstd::seq_lib::to_multiset_build(items.drop_last(), items.last());
        assert(items =~= items.drop_last().push(items.last()));
    }
    assert forall|x: T| sorted.contains(x) <==> items.contains(x) by {
        sorted.to_multiset_ensures();
        items.to_multiset_ensures();
        assert(sorted.contains(x) <==> sorted.to_multiset().count(x) > 0);
        assert(items.contains(x) <==> items.to_multiset().count(x) > 0);
    }
}

/// The indices of `keys` in the order of the keys, equal keys in the order of their indices.
pub fn sort_order(keys: &Vec<Vec<u64>>) -> (order: Vec<usize>)
    ensures
        index_views(order@) == stable_order(key_views(keys@)),
        order@.len() == keys@.len(),
        forall|i: int| 0 <= i < order@.len() ==> (#[trigger] order@[i]) < keys@.len(),
{
    let mut order: Vec<usize> = Vec::new();
    let mut n: usize = 0;
    assert(index_views(order@) =~= stable_order(key_views(keys@).take(0)));
    while n < keys.len()
        invariant
            n <= keys.len(),
            index_views(order@) == stable_order(key_views(keys@).take(n as int)),
            order@.len() == n,
            forall|i: int| 0 <= i < order@.len() ==> (#[trigger] order@[i]) < n,
        decreases keys.len() - n,
    {
        let ghost kv = key_views(keys@);
        let ghost now = kv.take(n + 1);
        proof {
            law_stable_order(kv.take(n as int));
            lemma_slot(index_views(order@), now, now.last(), 0);
            assert(now.drop_last() =~= kv.take(n as int));
            assert(now.last() == keys@[n as int]@);
        }
        let mut low: usize = 0;
        let mut high: usize = order.len();
        let ghost at = slot_from(index_views(order@), now, now.last(), 0);
        while low < high
            invariant
                low <= high <= order.len(),
                n < keys.len(),
                kv == key_views(keys@),
                now == kv.take(n + 1),
                now.last() == keys@[n as int]@,
                order@.len() == n,
                forall|i: int| 0 <= i < order@.len() ==> (#[trigger] order@[i]) < n,
                is_stable_order(index_views(order@), kv.take(n as int)),
                at == slot_from(index_views(order@), now, now.last(), 0),
                0 <= at <= order@.len(),
                forall|i: int|
                    0 <= i < at ==> !key_less(
                        now.last(),
                        now[#[trigger] index_views(order@)[i]],
                    ),
                at < order@.len() ==> key_less(now.last(), now[index_views(order@)[at]]),
                low <= at <= high,
            decreases high - low,
        {
            let mid: usize = low + (high - low) / 2;
            let ghost o = index_views(order@);
            assert(o[mid as int] == order@[mid as int]);
            assert(now[o[mid as int]] == keys@[order@[mid as int] as int]@);
            let smaller: bool = less(&keys[n], &keys[order[mid]]);
            proof {
                if smaller {
                    if at > mid {
                        assert(!key_less(now.last(), now[o[mid as int]]));
                    }
                } else {
                    if at <= mid {
                        if at < mid {
                            assert(comes_before(kv.take(n as int), o[at], o[mid as int]));
                            assert(now[o[at]] == kv.take(n as int)[o[at]]);
                            assert(now[o[mid as int]] == kv.take(n as int)[o[mid as int]]);
                            if now[o[at]] != now[o[mid as int]] {
                                lemma_key_transitive(now.last(), now[o[at]], now[o[mid as int]]);
                            }
                        }
                        assert(false);
                    }
                }
            }
            if smaller {
                high = mid;
            } else {
                low = mid + 1;
            }
        }
        let ghost before = order@;
        order.insert(low, n);
        proof {
            assert(index_views(order@) =~= index_views(before).insert(low as int, n as int));
            assert forall|i: int| 0 <= i < order@.len() implies (#[trigger] order@[i]) < n + 1 by {
                if i < low {
                    assert(order@[i] == before[i]);
                } else if i > low {
                    assert(order@[i] == before[i - 1]);
                }
            }
        }
        n += 1;
    }
    assert(key_views(keys@).take(keys@.len() as int) =~= key_views(keys@));
    order
}

fn letter_key(c: char) -> (r: u64)
    ensures
        r == letter(c),
{
    c as u64 + 1
}

/// Appends a number to a key.
pub fn push_number_key(key: &mut Vec<u64>, n: u64)
    ensures
        final(key)@ == old(key)@.push(n),
{
    key.push(n);
}

/// Values that can be copied with the same model.
pub trait Replicate: View + Sized {
    fn replicate(&self) -> (r: Self)
        ensures
            r@ == self@,
    ;
}

impl Replicate for String {
    fn replicate(&self) -> (r: Self) {
        self.clone()
    }
}

/// Copies of the items at the places that `order` lists.
pub fn arrange<T: Replicate>(items: &Vec<T>, order: &Vec<usize>) -> (r: Vec<T>)
    requires
        forall|i: int| 0 <= i < order@.len() ==> (#[trigger] order@[i]) < items@.len(),
    ensures
        all_views(r@) == arranged(all_views(items@), index_views(order@)),
{
    let mut out: Vec<T> = Vec::new();
    let mut i: usize = 0;
    while i < order.len()
        invariant
            i <= order.len(),
            out@.len() == i,
            forall|i: int| 0 <= i < order@.len() ==> (#[trigger] order@[i]) < items@.len(),
            forall|j: int| 0 <= j < i ==> (#[trigger] out@[j])@ == items@[order@[j] as int]@,
        decreases order.len() - i,
    {
        out.push(items[order[i]].replicate());
        i += 1;
    }
    assert(all_views(out@) =~= arranged(all_views(items@), index_views(order@)));
    out
}

/// Appends the key of a text.
pub fn push_text_key(key: &mut Vec<u64>, s: &str)
    ensures
        final(key)@ == old(key)@ + text_key(s@),
{
    let x: Vec<char> = chars_of(s);
    let mut i: usize = 0;
    let ghost letters = Seq::new(s@.len(), |i: int| letter(s@[i]));
    assert(old(key)@ + letters.take(0) =~= old(key)@);
    while i < x.len()
        invariant
            x@ == s@,
            i <= x.len(),
            letters == Seq::new(s@.len(), |i: int| letter(s@[i])),
            key@ == old(key)@ + letters.take(i as int),
        decreases x.len() - i,
    {
        key.push(letter_key(x[i]));
        assert(letters.take(i + 1) =~= letters.take(i as int).push(letters[i as int]));
        assert(key@ =~= old(key)@ + letters.take(i + 1));
        i += 1;
    }
    key.push(0);
    assert(letters.take(x@.len() as int) =~= letters);
    assert(key@ =~= old(key)@ + text_key(s@));
}

} // verus!
