//! A stable sort by text keys.

use vstd::prelude::*;

use crate::ordered::texts;
use crate::text::{lemma_text_lt_asymmetric, lemma_text_lt_irreflexive, lemma_text_lt_total, lemma_text_lt_transitive, text_le, text_less, text_lt};

verus! {

/// `x` put into `s` behind every item whose key does not come after the key of `x`.
pub open spec fn insert_stable<T>(s: Seq<(Seq<char>, T)>, x: (Seq<char>, T)) -> Seq<
    (Seq<char>, T),
>
    decreases s.len(),
{
    if s.len() > 0 && text_lt(x.0, s.last().0) {
        insert_stable(s.drop_last(), x).push(s.last())
    } else {
        s.push(x)
    }
}

/// The items of `s` in ascending order of their keys, items with the same key in the
/// order in which they came.
pub open spec fn stable_sorted<T>(s: Seq<(Seq<char>, T)>) -> Seq<(Seq<char>, T)>
    decreases s.len(),
{
    if s.len() == 0 {
        s
    } else {
        insert_stable(stable_sorted(s.drop_last()), s.last())
    }
}

/// The keys are in ascending order.
pub open spec fn ascending<T>(s: Seq<(Seq<char>, T)>) -> bool {
    forall|i: int, j: int| 0 <= i < j < s.len() ==> text_le(#[trigger] s[i].0, #[trigger] s[j].0)
}

/// Each item next to its key.
pub open spec fn keyed<T>(keys: Seq<Seq<char>>, items: Seq<T>) -> Seq<(Seq<char>, T)> {
    Seq::new(items.len(), |i: int| (keys[i], items[i]))
}

/// The items without their keys.
pub open spec fn unkeyed<T>(s: Seq<(Seq<char>, T)>) -> Seq<T> {
    s.map_values(|p: (Seq<char>, T)| p.1)
}

/// The views of a list.
pub open spec fn views<T: View>(items: Seq<T>) -> Seq<T::V> {
    items.map_values(|t: T| t@)
}

proof fn lemma_text_le_transitive(a: Seq<char>, b: Seq<char>, c: Seq<char>)
    requires
        text_le(a, b),
        text_le(b, c),
    ensures
        text_le(a, c),
{
    if a != b && b != c {
        lemma_text_lt_transitive(a, b, c);
    }
}

proof fn lemma_insert_place<T>(s: Seq<(Seq<char>, T)>, x: (Seq<char>, T), p: int)
    requires
        0 <= p <= s.len(),
        forall|j: int| 0 <= j < p ==> text_le(#[trigger] s[j].0, x.0),
        forall|j: int| p <= j < s.len() ==> text_lt(x.0, #[trigger] s[j].0),
    ensures
        insert_stable(s, x) == s.insert(p, x),
    decreases s.len(),
{
    if s.len() > 0 && text_lt(x.0, s.last().0) {
        assert(p < s.len()) by {
            if p == s.len() {
                lemma_text_lt_asymmetric(x.0, s.last().0);
                assert(text_le(s[s.len() - 1].0, x.0));
            }
        }
        let t = s.drop_last();
        assert forall|j: int| 0 <= j < p implies text_le(#[trigger] t[j].0, x.0) by {
            assert(t[j] == s[j]);
        }
        assert forall|j: int| p <= j < t.len() implies text_lt(x.0, #[trigger] t[j].0) by {
            assert(t[j] == s[j]);
        }
        lemma_insert_place(t, x, p);
        assert(t.insert(p, x).push(s.last()) =~= s.insert(p, x));
    } else {
        assert(p == s.len()) by {
            if p < s.len() {
                assert(text_lt(x.0, s[s.len() - 1].0));
            }
        }
        assert(s.push(x) =~= s.insert(p, x));
    }
}

proof fn lemma_insert_bounded<T>(s: Seq<(Seq<char>, T)>, x: (Seq<char>, T), k: Seq<char>)
    requires
        text_le(x.0, k),
        forall|i: int| 0 <= i < s.len() ==> text_le(#[trigger] s[i].0, k),
    ensures
        forall|i: int|
            0 <= i < insert_stable(s, x).len() ==> text_le(#[trigger] insert_stable(s, x)[i].0, k),
    decreases s.len(),
{
    let out = insert_stable(s, x);
    if s.len() > 0 && text_lt(x.0, s.last().0) {
        let t = s.drop_last();
        assert forall|i: int| 0 <= i < t.len() implies text_le(#[trigger] t[i].0, k) by {
            assert(t[i] == s[i]);
        }
        lemma_insert_bounded(t, x, k);
        let rest = insert_stable(t, x);
        assert forall|i: int| 0 <= i < out.len() implies text_le(#[trigger] out[i].0, k) by {
            if i < rest.len() {
                assert(out[i] == rest[i]);
            } else {
                assert(out[i] == s[s.len() - 1]);
            }
        }
    } else {
        assert forall|i: int| 0 <= i < out.len() implies text_le(#[trigger] out[i].0, k) by {
            if i < s.len() {
                assert(out[i] == s[i]);
            }
        }
    }
}

proof fn lemma_insert_ascending<T>(s: Seq<(Seq<char>, T)>, x: (Seq<char>, T))
    requires
        ascending(s),
    ensures
        ascending(insert_stable(s, x)),
        insert_stable(s, x).len() == s.len() + 1,
        insert_stable(s, x).to_multiset() == s.to_multiset().insert(x),
    decreases s.len(),
{
    broadcast use vstd::seq_lib::group_to_multiset_ensures;

    let out = insert_stable(s, x);
    if s.len() > 0 && text_lt(x.0, s.last().0) {
        let t = s.drop_last();
        let rest = insert_stable(t, x);
        assert(ascending(t)) by {
            assert forall|i: int, j: int| 0 <= i < j < t.len() implies text_le(
                #[trigger] t[i].0,
                #[trigger] t[j].0,
            ) by {
                assert(t[i] == s[i] && t[j] == s[j]);
            }
        }
        lemma_insert_ascending(t, x);
        assert(t.push(s.last()) =~= s);
        assert(out.to_multiset() =~= s.to_multiset().insert(x));
        assert forall|i: int| 0 <= i < t.len() implies text_le(#[trigger] t[i].0, s.last().0) by {
            assert(t[i] == s[i]);
            assert(text_le(s[i].0, s[s.len() - 1].0));
        }
        lemma_insert_bounded(t, x, s.last().0);
        assert forall|i: int, j: int| 0 <= i < j < out.len() implies text_le(
            #[trigger] out[i].0,
            #[trigger] out[j].0,
        ) by {
            assert(out[i] == rest[i]);
            if j < rest.len() {
                assert(out[j] == rest[j]);
            } else {
                assert(text_le(rest[i].0, s.last().0));
            }
        }
    } else {
        assert(out =~= s.push(x));
        assert forall|i: int, j: int| 0 <= i < j < out.len() implies text_le(
            #[trigger] out[i].0,
            #[trigger] out[j].0,
        ) by {
            if j == s.len() {
                lemma_text_lt_total(s.last().0, x.0);
                assert(text_le(s.last().0, x.0));
                if i < s.len() - 1 {
                    assert(text_le(s[i].0, s[s.len() - 1].0));
                    lemma_text_le_transitive(s[i].0, s.last().0, x.0);
                }
            }
        }
    }
}

/// Sorting puts the keys in ascending order and keeps every item.
pub proof fn law_stable_sorted<T>(s: Seq<(Seq<char>, T)>)
    ensures
        ascending(stable_sorted(s)),
        stable_sorted(s).len() == s.len(),
        stable_sorted(s).to_multiset() == s.to_multiset(),
    decreases s.len(),
{
    broadcast use vstd::seq_lib::group_to_multiset_ensures;

    if s.len() > 0 {
        law_stable_sorted(s.drop_last());
        lemma_insert_ascending(stable_sorted(s.drop_last()), s.last());
        assert(s.drop_last().push(s.last()) =~= s);
    }
}

/// A list whose keys are already in ascending order is left as it is.
pub proof fn law_sorted_is_kept<T>(s: Seq<(Seq<char>, T)>)
    requires
        ascending(s),
    ensures
        stable_sorted(s) == s,
    decreases s.len(),
{
    if s.len() > 0 {
        let t = s.drop_last();
        assert(ascending(t)) by {
            assert forall|i: int, j: int| 0 <= i < j < t.len() implies text_le(
                #[trigger] t[i].0,
                #[trigger] t[j].0,
            ) by {
                assert(t[i] == s[i] && t[j] == s[j]);
            }
        }
        law_sorted_is_kept(t);
        assert forall|j: int| 0 <= j < t.len() implies text_le(#[trigger] t[j].0, s.last().0) by {
            assert(t[j] == s[j]);
            assert(text_le(s[j].0, s[s.len() - 1].0));
        }
        lemma_insert_place(t, s.last(), t.len() as int);
        assert(t.insert(t.len() as int, s.last()) =~= s);
    }
}

/// The items of `s` with the given key, in order.
pub open spec fn with_key<T>(s: Seq<(Seq<char>, T)>, key: Seq<char>) -> Seq<(Seq<char>, T)>
    decreases s.len(),
{
    if s.len() == 0 {
        s
    } else if s.last().0 == key {
        with_key(s.drop_last(), key).push(s.last())
    } else {
        with_key(s.drop_last(), key)
    }
}

proof fn lemma_insert_with_key<T>(s: Seq<(Seq<char>, T)>, x: (Seq<char>, T), key: Seq<char>)
    requires
        ascending(s),
    ensures
        with_key(insert_stable(s, x), key) == with_key(s.push(x), key),
    decreases s.len(),
{
    assert(s.push(x).drop_last() =~= s);
    if s.len() > 0 && text_lt(x.0, s.last().0) {
        let t = s.drop_last();
        assert(ascending(t)) by {
            assert forall|i: int, j: int| 0 <= i < j < t.len() implies text_le(
                #[trigger] t[i].0,
                #[trigger] t[j].0,
            ) by {
                assert(t[i] == s[i] && t[j] == s[j]);
            }
        }
        lemma_insert_with_key(t, x, key);
        assert(t.push(x).drop_last() =~= t);
        let rest = insert_stable(t, x);
        let out = insert_stable(s, x);
        assert(out == rest.push(s.last()));
        assert(out.drop_last() =~= rest);
        lemma_text_lt_irreflexive(x.0);
        assert(x.0 != s.last().0);
        assert(with_key(out, key) == if s.last().0 == key {
            with_key(rest, key).push(s.last())
        } else {
            with_key(rest, key)
        });
        assert(with_key(t.push(x), key) == if x.0 == key {
            with_key(t, key).push(x)
        } else {
            with_key(t, key)
        });
        assert(with_key(s, key) == if s.last().0 == key {
            with_key(t, key).push(s.last())
        } else {
            with_key(t, key)
        });
    }
}

/// Items with the same key keep their order.
pub proof fn law_sort_is_stable<T>(s: Seq<(Seq<char>, T)>, key: Seq<char>)
    ensures
        with_key(stable_sorted(s), key) == with_key(s, key),
    decreases s.len(),
{
    if s.len() > 0 {
        let t = s.drop_last();
        law_sort_is_stable(t, key);
        law_stable_sorted(t);
        lemma_insert_with_key(stable_sorted(t), s.last(), key);
        assert(stable_sorted(t).push(s.last()).drop_last() =~= stable_sorted(t));
    }
}

/// Behind every key that does not come after `key`.
fn upper_bound(keys: &Vec<String>, key: &str) -> (p: usize)
    requires
        forall|i: int, j: int|
            0 <= i < j < keys@.len() ==> text_le(#[trigger] keys@[i]@, #[trigger] keys@[j]@),
    ensures
        p <= keys@.len(),
        forall|j: int| 0 <= j < p ==> text_le(#[trigger] keys@[j]@, key@),
        forall|j: int| p <= j < keys@.len() ==> text_lt(key@, #[trigger] keys@[j]@),
{
    let mut lo: usize = 0;
    let mut hi: usize = keys.len();
    while lo < hi
        invariant
            lo <= hi <= keys@.len(),
            forall|i: int, j: int|
                0 <= i < j < keys@.len() ==> text_le(#[trigger] keys@[i]@, #[trigger] keys@[j]@),
            forall|j: int| 0 <= j < lo ==> text_le(#[trigger] keys@[j]@, key@),
            forall|j: int| hi <= j < keys@.len() ==> text_lt(key@, #[trigger] keys@[j]@),
        decreases hi - lo,
    {
        let mid: usize = if hi == keys.len() {
            hi - 1
        } else {
            lo + (hi - lo) / 2
        };
        if text_less(key, keys[mid].as_str()) {
            proof {
                assert forall|j: int| mid <= j < keys@.len() implies text_lt(
                    key@,
                    #[trigger] keys@[j]@,
                ) by {
                    if mid < j {
                        assert(text_le(keys@[mid as int]@, keys@[j]@));
                        if keys@[mid as int]@ != keys@[j]@ {
                            lemma_text_lt_transitive(key@, keys@[mid as int]@, keys@[j]@);
                        }
                    }
                }
            }
            hi = mid;
        } else {
            proof {
                lemma_text_lt_total(key@, keys@[mid as int]@);
                assert forall|j: int| 0 <= j < mid + 1 implies text_le(
                    #[trigger] keys@[j]@,
                    key@,
                ) by {
                    if j < mid {
                        assert(text_le(keys@[j]@, keys@[mid as int]@));
                        lemma_text_le_transitive(keys@[j]@, keys@[mid as int]@, key@);
                    }
                }
            }
            lo = mid + 1;
        }
    }
    lo
}

fn reversed<T>(items: Vec<T>) -> (r: Vec<T>)
    ensures
        r@ == items@.reverse(),
{
    let ghost all = items@;
    let mut items = items;
    let mut out: Vec<T> = Vec::new();
    while items.len() > 0
        invariant
            items@.len() <= all.len(),
            items@ == all.take(items@.len() as int),
            out@ == all.skip(items@.len() as int).reverse(),
        decreases items@.len(),
    {
        let ghost n = items@.len();
        if let Some(x) = items.pop() {
            out.push(x);
        }
        proof {
            assert(items@ =~= all.take(n - 1));
            assert(out@ =~= all.skip(n - 1).reverse());
        }
    }
    proof {
        assert(all.skip(0) =~= all);
    }
    out
}

/// Sorts `items` by the keys at the same positions; items with the same key keep their
/// order.
pub fn stable_sort<T: View>(items: Vec<T>, keys: Vec<String>) -> (r: Vec<T>)
    requires
        items@.len() == keys@.len(),
    ensures
        views(r@) == unkeyed(stable_sorted(keyed(texts(keys@), views(items@)))),
{
    let ghost all = keyed(texts(keys@), views(items@));
    let ghost n = items@.len();
    let mut items_left = reversed(items);
    let mut keys_left = reversed(keys);
    let mut out: Vec<T> = Vec::new();
    let mut out_keys: Vec<String> = Vec::new();
    proof {
        assert(keyed(texts(out_keys@), views(out@)) =~= stable_sorted(all.take(0)));
    }
    while items_left.len() > 0
        invariant
            n == items@.len() == keys@.len() == all.len(),
            all == keyed(texts(keys@), views(items@)),
            items_left@.len() == keys_left@.len() <= n,
            items_left@ == items@.skip(n - items_left@.len()).reverse(),
            keys_left@ == keys@.skip(n - items_left@.len()).reverse(),
            out@.len() == out_keys@.len(),
            keyed(texts(out_keys@), views(out@)) == stable_sorted(all.take(n - items_left@.len())),
        decreases items_left@.len(),
    {
        let ghost i = n - items_left@.len();
        let ghost so_far = keyed(texts(out_keys@), views(out@));
        proof {
            law_stable_sorted(all.take(i));
            assert forall|a: int, b: int| 0 <= a < b < out_keys@.len() implies text_le(
                #[trigger] out_keys@[a]@,
                #[trigger] out_keys@[b]@,
            ) by {
                assert(so_far[a].0 == out_keys@[a]@ && so_far[b].0 == out_keys@[b]@);
            }
        }
        if let (Some(item), Some(key)) = (items_left.pop(), keys_left.pop()) {
            let p = upper_bound(&out_keys, key.as_str());
            proof {
                assert(item == items@[i]);
                assert(key == keys@[i]);
                let x = (key@, item@);
                assert(all[i] == x);
                assert forall|j: int| 0 <= j < p implies text_le(#[trigger] so_far[j].0, x.0) by {
                    assert(so_far[j].0 == out_keys@[j]@);
                }
                assert forall|j: int| p <= j < so_far.len() implies text_lt(
                    x.0,
                    #[trigger] so_far[j].0,
                ) by {
                    assert(so_far[j].0 == out_keys@[j]@);
                }
                lemma_insert_place(so_far, x, p as int);
                assert(all.take(i + 1).drop_last() =~= all.take(i));
                assert(all.take(i + 1).last() == x);
            }
            out.insert(p, item);
            out_keys.insert(p, key);
            proof {
                assert(keyed(texts(out_keys@), views(out@)) =~= so_far.insert(
                    p as int,
                    (key@, item@),
                ));
                assert(items_left@ =~= items@.skip(i + 1).reverse());
                assert(keys_left@ =~= keys@.skip(i + 1).reverse());
            }
        }
    }
    proof {
        assert(all.take(n as int) =~= all);
        assert(unkeyed(keyed(texts(out_keys@), views(out@))) =~= views(out@));
    }
    out
}

// ---------------------------------------------------------------------
// Positions
// ---------------------------------------------------------------------

/// The positions of a list at which `p` holds, in ascending order.
pub open spec fn positions<T>(s: Seq<T>, p: spec_fn(T) -> bool) -> Seq<int>
    decreases s.len(),
{
    if s.len() == 0 {
        Seq::empty()
    } else {
        let before = positions(s.drop_last(), p);
        if p(s.last()) {
            before.push(s.len() - 1)
        } else {
            before
        }
    }
}

/// A list of machine integers as numbers.
pub open spec fn as_numbers(list: Seq<usize>) -> Seq<int> {
    list.map_values(|i: usize| i as int)
}

/// The positions are those at which `p` holds and no others, each once.
pub proof fn law_positions<T>(s: Seq<T>, p: spec_fn(T) -> bool)
    ensures
        forall|i: int| #[trigger]
            positions(s, p).contains(i) <==> 0 <= i < s.len() && p(s[i]),
        forall|a: int, b: int|
            0 <= a < b < positions(s, p).len() ==> #[trigger] positions(s, p)[a]
                < #[trigger] positions(s, p)[b],
    decreases s.len(),
{
    if s.len() > 0 {
        let init = s.drop_last();
        let before = positions(init, p);
        let all = positions(s, p);
        law_positions(init, p);
        assert forall|a: int| 0 <= a < before.len() implies 0 <= #[trigger] before[a] < init.len() by {
            assert(before.contains(before[a]));
        }
        assert forall|i: int| #[trigger] all.contains(i) <==> 0 <= i < s.len() && p(s[i]) by {
            if all.contains(i) {
                let a = choose|a: int| 0 <= a < all.len() && all[a] == i;
                if a < before.len() {
                    assert(before[a] == i);
                    assert(before.contains(i));
                    assert(init[i] == s[i]);
                }
            }
            if 0 <= i < s.len() && p(s[i]) {
                if i < init.len() {
                    assert(init[i] == s[i]);
                    assert(before.contains(i));
                    let a = choose|a: int| 0 <= a < before.len() && before[a] == i;
                    assert(all[a] == i);
                } else {
                    assert(all[all.len() - 1] == i);
                }
            }
        }
    }
}

// ---------------------------------------------------------------------
// Rearranged lists
// ---------------------------------------------------------------------

/// What stands in a list stands somewhere in a rearranged list.
pub proof fn lemma_member<T>(a: Seq<T>, b: Seq<T>, i: int) -> (j: int)
    requires
        a.to_multiset() == b.to_multiset(),
        0 <= i < a.len(),
    ensures
        0 <= j < b.len(),
        b[j] == a[i],
{
    broadcast use vstd::seq_lib::group_to_multiset_ensures;

    assert(a.contains(a[i]));
    assert(a.to_multiset().count(a[i]) > 0);
    assert(b.contains(a[i]));
    choose|j: int| 0 <= j < b.len() && b[j] == a[i]
}

/// Applying a function to the items keeps lists rearrangements of each other.
pub proof fn lemma_map_multiset<T, U>(a: Seq<T>, b: Seq<T>, f: spec_fn(T) -> U)
    requires
        a.to_multiset() == b.to_multiset(),
    ensures
        a.map_values(f).to_multiset() == b.map_values(f).to_multiset(),
    decreases a.len(),
{
    broadcast use vstd::seq_lib::group_to_multiset_ensures;

    assert(a.len() == b.len()) by {
        assert(a.to_multiset().len() == a.len());
        assert(b.to_multiset().len() == b.len());
    }
    if a.len() > 0 {
        let n = a.len() - 1;
        let j = lemma_member(a, b, n);
        let ra = a.drop_last();
        let rb = b.remove(j);
        assert(a =~= ra.push(a[n]));
        assert(ra.to_multiset() =~= a.to_multiset().remove(a[n]));
        assert(rb.to_multiset() =~= b.to_multiset().remove(b[j]));
        lemma_map_multiset(ra, rb, f);
        assert(a.map_values(f) =~= ra.map_values(f).push(f(a[n])));
        assert(b.map_values(f).remove(j) =~= rb.map_values(f));
        assert(b.map_values(f)[j] == f(b[j]));
        assert(rb.map_values(f).to_multiset() =~= b.map_values(f).to_multiset().remove(f(b[j])));
        assert(b.map_values(f).to_multiset() =~= rb.map_values(f).to_multiset().insert(f(b[j]))) by {
            assert(b.map_values(f).contains(f(b[j])));
            assert(b.map_values(f).to_multiset().count(f(b[j])) > 0);
        }
    } else {
        assert(a =~= b);
    }
}

/// Two sorted lists that are rearrangements of each other are the same list, where the key
/// determines the item.
pub proof fn lemma_sorted_unique<T>(a: Seq<(Seq<char>, T)>, b: Seq<(Seq<char>, T)>)
    requires
        a.to_multiset() == b.to_multiset(),
        ascending(a),
        ascending(b),
        forall|i: int, j: int|
            0 <= i < a.len() && 0 <= j < a.len() && (#[trigger] a[i]).0 == (#[trigger] a[j]).0
                ==> a[i] == a[j],
    ensures
        a == b,
    decreases a.len(),
{
    broadcast use vstd::seq_lib::group_to_multiset_ensures;

    assert(a.len() == b.len()) by {
        assert(a.to_multiset().len() == a.len());
        assert(b.to_multiset().len() == b.len());
    }
    if a.len() > 0 {
        let n = a.len() - 1;
        let j = lemma_member(a, b, n);
        let k = lemma_member(b, a, n);
        assert(a[n] == b[n]) by {
            if k != n && j != n {
                assert(text_le(a[k].0, a[n].0));
                assert(text_le(b[j].0, b[n].0));
                if a[k].0 != a[n].0 {
                    lemma_text_lt_asymmetric(a[k].0, a[n].0);
                }
            }
        }
        let ra = a.drop_last();
        let rb = b.drop_last();
        assert(a =~= ra.push(a[n]));
        assert(b =~= rb.push(b[n]));
        assert(ra.to_multiset() =~= a.to_multiset().remove(a[n]));
        assert(rb.to_multiset() =~= b.to_multiset().remove(b[n]));
        assert forall|i: int, l: int|
            0 <= i < ra.len() && 0 <= l < ra.len() && (#[trigger] ra[i]).0 == (#[trigger] ra[l]).0 implies ra[i]
            == ra[l] by {
            assert(ra[i] == a[i] && ra[l] == a[l]);
        }
        assert(ascending(ra)) by {
            assert forall|i: int, l: int| 0 <= i < l < ra.len() implies text_le(
                #[trigger] ra[i].0,
                #[trigger] ra[l].0,
            ) by {
                assert(ra[i] == a[i] && ra[l] == a[l]);
            }
        }
        assert(ascending(rb)) by {
            assert forall|i: int, l: int| 0 <= i < l < rb.len() implies text_le(
                #[trigger] rb[i].0,
                #[trigger] rb[l].0,
            ) by {
                assert(rb[i] == b[i] && rb[l] == b[l]);
            }
        }
        lemma_sorted_unique(ra, rb);
    } else {
        assert(a =~= b);
    }
}

/// `p` names each of the first `n` positions once.
pub open spec fn is_rearrangement(p: Seq<int>, n: nat) -> bool {
    &&& p.len() == n
    &&& forall|i: int| 0 <= i < n ==> 0 <= #[trigger] p[i] < n
    &&& forall|i: int, j: int| 0 <= i < j < n ==> #[trigger] p[i] != #[trigger] p[j]
}

/// A list of positions in which none comes twice and that is as long as there are positions
/// leaves none out.
pub proof fn lemma_rearrangement_is_complete(p: Seq<int>, n: nat, i: int)
    requires
        is_rearrangement(p, n),
        0 <= i < n,
    ensures
        p.contains(i),
{
    assert(p.no_duplicates());
    p.unique_seq_to_set();
    let all = vstd::set_lib::set_int_range(0, n as int);
    vstd::set_lib::lemma_int_range(0, n as int);
    assert(p.to_set().subset_of(all)) by {
        assert forall|j: int| p.to_set().contains(j) implies all.contains(j) by {
            let k = choose|k: int| 0 <= k < p.len() && p[k] == j;
        }
    }
    vstd::set_lib::lemma_subset_equality(p.to_set(), all);
    assert(all.contains(i));
}

proof fn lemma_insert_at<T>(s: Seq<(Seq<char>, T)>, x: (Seq<char>, T)) -> (j: int)
    ensures
        0 <= j <= s.len(),
        insert_stable(s, x) == s.insert(j, x),
        forall|m: int| j <= m < s.len() ==> text_lt(x.0, #[trigger] s[m].0),
    decreases s.len(),
{
    if s.len() > 0 && text_lt(x.0, s.last().0) {
        let t = s.drop_last();
        let j = lemma_insert_at(t, x);
        assert(t.insert(j, x).push(s.last()) =~= s.insert(j, x));
        assert forall|m: int| j <= m < s.len() implies text_lt(x.0, #[trigger] s[m].0) by {
            if m < t.len() {
                assert(t[m] == s[m]);
            }
        }
        j
    } else {
        assert(s.push(x) =~= s.insert(s.len() as int, x));
        s.len() as int
    }
}

/// Sorting puts each item at one place, no key stands behind one that comes after it, and of
/// two items with the same key the one that came first comes first.
pub proof fn law_sort_rearranges<T>(s: Seq<(Seq<char>, T)>) -> (p: Seq<int>)
    ensures
        is_rearrangement(p, s.len()),
        stable_sorted(s).len() == s.len(),
        forall|k: int| 0 <= k < s.len() ==> #[trigger] stable_sorted(s)[k] == s[p[k]],
        forall|k: int, l: int|
            0 <= k < l < s.len() ==> !text_lt(
                #[trigger] stable_sorted(s)[l].0,
                #[trigger] stable_sorted(s)[k].0,
            ),
        forall|k: int, l: int|
            0 <= k < l < s.len() && (#[trigger] stable_sorted(s)[k]).0 == (
            #[trigger] stable_sorted(s)[l]).0 ==> p[k] < p[l],
    decreases s.len(),
{
    law_stable_sorted(s);
    if s.len() == 0 {
        Seq::empty()
    } else {
        let t = s.drop_last();
        let x = s.last();
        let n = s.len() - 1;
        let before = law_sort_rearranges(t);
        let sorted = stable_sorted(t);
        let j = lemma_insert_at(sorted, x);
        let p = before.insert(j, n);
        let out = stable_sorted(s);
        assert(out == sorted.insert(j, x));
        assert forall|k: int| 0 <= k < s.len() implies #[trigger] out[k] == s[p[k]] by {
            if k < j {
                assert(out[k] == sorted[k]);
            } else if k > j {
                assert(out[k] == sorted[k - 1]);
            }
        }
        assert forall|k: int| 0 <= k < s.len() implies 0 <= #[trigger] p[k] < s.len() by {
            if k < j {
                assert(p[k] == before[k]);
            } else if k > j {
                assert(p[k] == before[k - 1]);
            }
        }
        assert forall|k: int, l: int| 0 <= k < l < s.len() implies #[trigger] p[k] != #[trigger] p[l] by {
            let k2 = if k < j { k } else { k - 1 };
            let l2 = if l < j { l } else { l - 1 };
            if k != j {
                assert(p[k] == before[k2] && before[k2] < n);
            }
            if l != j {
                assert(p[l] == before[l2] && before[l2] < n);
            }
            if k != j && l != j {
                assert(before[k2] != before[l2]);
            }
        }
        assert forall|k: int, l: int| 0 <= k < l < s.len() implies !text_lt(
            #[trigger] out[l].0,
            #[trigger] out[k].0,
        ) by {
            assert(text_le(out[k].0, out[l].0));
            if text_lt(out[l].0, out[k].0) {
                lemma_text_lt_irreflexive(out[k].0);
                lemma_text_lt_asymmetric(out[l].0, out[k].0);
            }
        }
        assert forall|k: int, l: int|
            0 <= k < l < s.len() && (#[trigger] out[k]).0 == (#[trigger] out[l]).0 implies p[k]
            < p[l] by {
            let k2 = if k < j { k } else { k - 1 };
            let l2 = if l < j { l } else { l - 1 };
            if k == j {
                assert(out[l] == sorted[l2]);
                assert(text_lt(x.0, sorted[l2].0));
                lemma_text_lt_irreflexive(x.0);
            } else if l == j {
                assert(p[k] == before[k2] && before[k2] < n);
            } else {
                assert(out[k] == sorted[k2] && out[l] == sorted[l2]);
                assert(before[k2] < before[l2]);
            }
        }
        p
    }
}

/// The views of a list, the items beside their keys, the items without them and machine
/// integers as numbers all keep the order of the list.
pub proof fn law_lists_keep_their_order<T: View>(
    items: Seq<T>,
    keys: Seq<Seq<char>>,
    numbers: Seq<usize>,
    i: int,
)
    ensures
        views(items).len() == items.len(),
        as_numbers(numbers).len() == numbers.len(),
        keyed(keys, items).len() == items.len(),
        unkeyed(keyed(keys, items)).len() == items.len(),
        0 <= i < items.len() ==> views(items)[i] == items[i]@,
        0 <= i < items.len() ==> keyed(keys, items)[i].0 == keys[i],
        0 <= i < items.len() ==> keyed(keys, items)[i].1 == items[i],
        0 <= i < items.len() ==> unkeyed(keyed(keys, items))[i] == items[i],
        0 <= i < numbers.len() ==> as_numbers(numbers)[i] == numbers[i],
{
}

} // verus!
