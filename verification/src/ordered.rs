//! A map and a set with text keys, kept in ascending key order.

use vstd::prelude::*;

use crate::text::{lemma_text_lt_asymmetric, lemma_text_lt_irreflexive, lemma_text_lt_total, lemma_text_lt_transitive, strictly_ascending, text_eq, text_less, text_lt};

verus! {

/// The texts of a list of strings.
pub open spec fn texts(strings: Seq<String>) -> Seq<Seq<char>> {
    strings.map_values(|s: String| s@)
}

/// The map from the keys to the values at their positions.
pub open spec fn map_of<T>(keys: Seq<Seq<char>>, values: Seq<T>) -> Map<Seq<char>, T> {
    Map::new(|k: Seq<char>| keys.contains(k), |k: Seq<char>| values[keys.index_of(k)])
}

/// `p` is where `key` stands or belongs in the ascending list `keys`.
pub open spec fn is_place(keys: Seq<Seq<char>>, key: Seq<char>, p: int) -> bool {
    &&& 0 <= p <= keys.len()
    &&& forall|j: int| 0 <= j < p ==> text_lt(#[trigger] keys[j], key)
    &&& forall|j: int| p <= j < keys.len() ==> keys[j] == key || text_lt(key, #[trigger] keys[j])
}

/// An ascending list holds a key at one position only.
pub proof fn lemma_ascending_unique(keys: Seq<Seq<char>>, i: int, j: int)
    requires
        strictly_ascending(keys),
        0 <= i < keys.len(),
        0 <= j < keys.len(),
        keys[i] == keys[j],
    ensures
        i == j,
{
    lemma_text_lt_irreflexive(keys[i]);
    if i < j {
        assert(text_lt(keys[i], keys[j]));
    } else if j < i {
        assert(text_lt(keys[j], keys[i]));
    }
}

/// In an ascending list a key is found at its position.
pub proof fn lemma_index_of(keys: Seq<Seq<char>>, i: int)
    requires
        strictly_ascending(keys),
        0 <= i < keys.len(),
    ensures
        keys.contains(keys[i]),
        keys.index_of(keys[i]) == i,
{
    let k = keys.index_of(keys[i]);
    assert(0 <= k < keys.len() && keys[k] == keys[i]);
    lemma_ascending_unique(keys, k, i);
}

proof fn lemma_place_absent(keys: Seq<Seq<char>>, key: Seq<char>, p: int)
    requires
        strictly_ascending(keys),
        is_place(keys, key, p),
        !(p < keys.len() && keys[p] == key),
    ensures
        !keys.contains(key),
        forall|j: int| p <= j < keys.len() ==> text_lt(key, #[trigger] keys[j]),
{
    assert forall|j: int| p <= j < keys.len() implies text_lt(key, #[trigger] keys[j]) by {
        if keys[j] == key && p < j {
            assert(text_lt(keys[p], keys[j]));
            assert(keys[p] == key || text_lt(key, keys[p]));
            lemma_text_lt_asymmetric(keys[p], keys[j]);
        }
    }
    if keys.contains(key) {
        let i = choose|i: int| 0 <= i < keys.len() && keys[i] == key;
        lemma_text_lt_irreflexive(key);
    }
}

proof fn lemma_insert_at<T>(
    keys: Seq<Seq<char>>,
    values: Seq<T>,
    key: Seq<char>,
    value: T,
    p: int,
)
    requires
        strictly_ascending(keys),
        keys.len() == values.len(),
        is_place(keys, key, p),
        !(p < keys.len() && keys[p] == key),
    ensures
        strictly_ascending(keys.insert(p, key)),
        map_of(keys.insert(p, key), values.insert(p, value)) == map_of(keys, values).insert(
            key,
            value,
        ),
{
    let nk = keys.insert(p, key);
    let nv = values.insert(p, value);
    lemma_place_absent(keys, key, p);
    assert forall|i: int, j: int| 0 <= i < j < nk.len() implies #[trigger] text_lt(
        nk[i],
        nk[j],
    ) by {
        let oi = if i < p {
            i
        } else {
            i - 1
        };
        let oj = if j < p {
            j
        } else {
            j - 1
        };
        if i != p && j != p {
            assert(text_lt(keys[oi], keys[oj]));
        } else if i == p {
            assert(text_lt(key, keys[oj]));
        } else {
            assert(text_lt(keys[oi], key));
        }
    }
    let a = map_of(nk, nv);
    let b = map_of(keys, values).insert(key, value);
    assert forall|k: Seq<char>| a.dom().contains(k) == b.dom().contains(k) by {
        if nk.contains(k) {
            let i = choose|i: int| 0 <= i < nk.len() && nk[i] == k;
            if i != p {
                let o = if i < p {
                    i
                } else {
                    i - 1
                };
                assert(keys[o] == k);
            }
        }
        if k == key {
            assert(nk[p] == key);
        } else if keys.contains(k) {
            let o = keys.index_of(k);
            if o < p {
                assert(nk[o] == k);
            } else {
                assert(nk[o + 1] == k);
            }
        }
    }
    assert forall|k: Seq<char>| a.dom().contains(k) implies a[k] == b[k] by {
        let i = nk.index_of(k);
        assert(0 <= i < nk.len() && nk[i] == k);
        if k == key {
            assert(nk[p] == key);
            lemma_ascending_unique(nk, i, p);
        } else {
            assert(i != p);
            let o = if i < p {
                i
            } else {
                i - 1
            };
            assert(keys[o] == k);
            lemma_index_of(keys, o);
        }
    }
    assert(a =~= b);
}

proof fn lemma_update_at<T>(keys: Seq<Seq<char>>, values: Seq<T>, value: T, p: int)
    requires
        strictly_ascending(keys),
        keys.len() == values.len(),
        0 <= p < keys.len(),
    ensures
        map_of(keys, values.update(p, value)) == map_of(keys, values).insert(keys[p], value),
{
    let a = map_of(keys, values.update(p, value));
    let b = map_of(keys, values).insert(keys[p], value);
    lemma_index_of(keys, p);
    assert forall|k: Seq<char>| a.dom().contains(k) implies a[k] == b[k] by {
        let i = keys.index_of(k);
        assert(0 <= i < keys.len() && keys[i] == k);
        if i == p {
            assert(k == keys[p]);
        } else if k == keys[p] {
            lemma_ascending_unique(keys, i, p);
        }
    }
    assert(a =~= b);
}

proof fn lemma_remove_at<T>(keys: Seq<Seq<char>>, values: Seq<T>, p: int)
    requires
        strictly_ascending(keys),
        keys.len() == values.len(),
        0 <= p < keys.len(),
    ensures
        strictly_ascending(keys.remove(p)),
        map_of(keys.remove(p), values.remove(p)) == map_of(keys, values).remove(keys[p]),
{
    let nk = keys.remove(p);
    let nv = values.remove(p);
    let key = keys[p];
    assert forall|i: int, j: int| 0 <= i < j < nk.len() implies #[trigger] text_lt(
        nk[i],
        nk[j],
    ) by {
        let oi = if i < p {
            i
        } else {
            i + 1
        };
        let oj = if j < p {
            j
        } else {
            j + 1
        };
        assert(text_lt(keys[oi], keys[oj]));
    }
    let a = map_of(nk, nv);
    let b = map_of(keys, values).remove(key);
    assert forall|k: Seq<char>| a.dom().contains(k) == b.dom().contains(k) by {
        if nk.contains(k) {
            let i = choose|i: int| 0 <= i < nk.len() && nk[i] == k;
            let o = if i < p {
                i
            } else {
                i + 1
            };
            assert(keys[o] == k);
            if k == key {
                lemma_ascending_unique(keys, o, p);
            }
        }
        if k != key && keys.contains(k) {
            let o = keys.index_of(k);
            assert(keys[o] == k);
            if o < p {
                assert(nk[o] == k);
            } else {
                assert(nk[o - 1] == k);
            }
        }
    }
    assert forall|k: Seq<char>| a.dom().contains(k) implies a[k] == b[k] by {
        let i = nk.index_of(k);
        assert(0 <= i < nk.len() && nk[i] == k);
        let o = if i < p {
            i
        } else {
            i + 1
        };
        assert(keys[o] == k);
        lemma_index_of(keys, o);
    }
    assert(a =~= b);
}

/// Where `key` stands or belongs in an ascending list.
fn place_of(keys: &Vec<String>, key: &str) -> (p: usize)
    requires
        strictly_ascending(texts(keys@)),
    ensures
        is_place(texts(keys@), key@, p as int),
{
    let ghost ks = texts(keys@);
    let mut lo: usize = 0;
    let mut hi: usize = keys.len();
    while lo < hi
        invariant
            ks == texts(keys@),
            strictly_ascending(ks),
            lo <= hi <= keys@.len(),
            forall|j: int| 0 <= j < lo ==> text_lt(#[trigger] ks[j], key@),
            forall|j: int| hi <= j < ks.len() ==> ks[j] == key@ || text_lt(key@, #[trigger] ks[j]),
        decreases hi - lo,
    {
        let mid: usize = lo + (hi - lo) / 2;
        proof {
            assert(ks[mid as int] == keys@[mid as int]@);
        }
        if text_less(keys[mid].as_str(), key) {
            proof {
                assert forall|j: int| 0 <= j < mid + 1 implies text_lt(#[trigger] ks[j], key@) by {
                    if j < mid {
                        assert(text_lt(ks[j], ks[mid as int]));
                        lemma_text_lt_transitive(ks[j], ks[mid as int], key@);
                    }
                }
            }
            lo = mid + 1;
        } else {
            proof {
                lemma_text_lt_total(ks[mid as int], key@);
                assert forall|j: int| mid <= j < ks.len() implies ks[j] == key@ || text_lt(
                    key@,
                    #[trigger] ks[j],
                ) by {
                    if mid < j {
                        assert(text_lt(ks[mid as int], ks[j]));
                        if ks[mid as int] != key@ {
                            lemma_text_lt_transitive(key@, ks[mid as int], ks[j]);
                        }
                    }
                }
            }
            hi = mid;
        }
    }
    lo
}

// ---------------------------------------------------------------------
// Map
// ---------------------------------------------------------------------

/// A map with text keys, walked in ascending key order.
pub struct SortedMap<V: View> {
    keys: Vec<String>,
    values: Vec<V>,
}

impl<V: View> View for SortedMap<V> {
    type V = Map<Seq<char>, V::V>;

    closed spec fn view(&self) -> Map<Seq<char>, V::V> {
        map_of(texts(self.keys@), self.values@.map_values(|v: V| v@))
    }
}

impl<V: View> SortedMap<V> {
    #[verifier::type_invariant]
    closed spec fn inv(self) -> bool {
        &&& self.keys@.len() == self.values@.len()
        &&& strictly_ascending(texts(self.keys@))
    }

    /// The keys, in the order in which the map is walked.
    pub closed spec fn keys(&self) -> Seq<Seq<char>> {
        texts(self.keys@)
    }

    /// An empty map.
    pub fn new() -> (r: Self)
        ensures
            r@ == Map::<Seq<char>, V::V>::empty(),
            r.keys() == Seq::<Seq<char>>::empty(),
    {
        let r = SortedMap { keys: Vec::new(), values: Vec::new() };
        proof {
            assert(texts(r.keys@) =~= Seq::<Seq<char>>::empty());
            assert(r@ =~= Map::<Seq<char>, V::V>::empty());
        }
        r
    }

    /// The number of keys; they are in strictly ascending order and are the map's domain.
    pub fn len(&self) -> (n: usize)
        ensures
            n == self.keys().len(),
            strictly_ascending(self.keys()),
            forall|k: Seq<char>| #[trigger] self@.contains_key(k) <==> self.keys().contains(k),
    {
        proof {
            use_type_invariant(self);
        }
        self.keys.len()
    }

    /// The key at a position of the walk.
    pub fn key_at(&self, i: usize) -> (r: &String)
        requires
            i < self.keys().len(),
        ensures
            r@ == self.keys()[i as int],
    {
        &self.keys[i]
    }

    /// The value at a position of the walk.
    pub fn value_at(&self, i: usize) -> (r: &V)
        requires
            i < self.keys().len(),
        ensures
            self@.contains_key(self.keys()[i as int]),
            r@ == self@[self.keys()[i as int]],
    {
        proof {
            use_type_invariant(self);
            lemma_index_of(texts(self.keys@), i as int);
        }
        &self.values[i]
    }

    /// The value of a key.
    pub fn get(&self, key: &str) -> (r: Option<&V>)
        ensures
            match r {
                Some(v) => self@.contains_key(key@) && v@ == self@[key@],
                None => !self@.contains_key(key@),
            },
    {
        proof {
            use_type_invariant(self);
        }
        let p = place_of(&self.keys, key);
        if p < self.keys.len() && text_eq(self.keys[p].as_str(), key) {
            proof {
                lemma_index_of(texts(self.keys@), p as int);
            }
            Some(&self.values[p])
        } else {
            proof {
                lemma_place_absent(texts(self.keys@), key@, p as int);
            }
            None
        }
    }

    /// Whether a key is in the map.
    pub fn contains_key(&self, key: &str) -> (r: bool)
        ensures
            r == self@.contains_key(key@),
    {
        match self.get(key) {
            Some(_) => true,
            None => false,
        }
    }

    /// Sets the value of a key.
    pub fn insert(&mut self, key: String, value: V)
        ensures
            final(self)@ == old(self)@.insert(key@, value@),
    {
        proof {
            use_type_invariant(&*self);
        }
        let ghost value_view = |v: V| v@;
        let ghost ks = texts(self.keys@);
        let ghost vs = self.values@.map_values(value_view);
        let p = place_of(&self.keys, key.as_str());
        let found = p < self.keys.len() && text_eq(self.keys[p].as_str(), key.as_str());
        let mut taken = SortedMap { keys: Vec::new(), values: Vec::new() };
        std::mem::swap(self, &mut taken);
        let SortedMap { mut keys, mut values } = taken;
        if found {
            values.set(p, value);
            proof {
                lemma_update_at(ks, vs, value@, p as int);
                assert(values@.map_values(value_view) =~= vs.update(p as int, value@));
            }
        } else {
            keys.insert(p, key);
            values.insert(p, value);
            proof {
                lemma_insert_at(ks, vs, key@, value@, p as int);
                assert(texts(keys@) =~= ks.insert(p as int, key@));
                assert(values@.map_values(value_view) =~= vs.insert(p as int, value@));
            }
        }
        *self = SortedMap { keys, values };
    }

    /// Removes a key, handing out its value.
    pub fn remove(&mut self, key: &str) -> (r: Option<V>)
        ensures
            final(self)@ == old(self)@.remove(key@),
            match r {
                Some(v) => old(self)@.contains_key(key@) && v@ == old(self)@[key@],
                None => !old(self)@.contains_key(key@),
            },
    {
        proof {
            use_type_invariant(&*self);
        }
        let ghost value_view = |v: V| v@;
        let ghost ks = texts(self.keys@);
        let ghost vs = self.values@.map_values(value_view);
        let p = place_of(&self.keys, key);
        if p < self.keys.len() && text_eq(self.keys[p].as_str(), key) {
            let mut taken = SortedMap { keys: Vec::new(), values: Vec::new() };
            std::mem::swap(self, &mut taken);
            let SortedMap { mut keys, mut values } = taken;
            keys.remove(p);
            let value = values.remove(p);
            proof {
                lemma_index_of(ks, p as int);
                lemma_remove_at(ks, vs, p as int);
                assert(texts(keys@) =~= ks.remove(p as int));
                assert(values@.map_values(value_view) =~= vs.remove(p as int));
            }
            *self = SortedMap { keys, values };
            Some(value)
        } else {
            proof {
                lemma_place_absent(ks, key@, p as int);
                assert(self@.remove(key@) =~= self@);
            }
            None
        }
    }
}

// ---------------------------------------------------------------------
// Set
// ---------------------------------------------------------------------

/// A set of texts, walked in ascending order.
pub struct NameSet {
    names: Vec<String>,
}

impl View for NameSet {
    type V = Set<Seq<char>>;

    closed spec fn view(&self) -> Set<Seq<char>> {
        texts(self.names@).to_set()
    }
}

impl NameSet {
    #[verifier::type_invariant]
    closed spec fn inv(self) -> bool {
        strictly_ascending(texts(self.names@))
    }

    /// The names, in the order in which the set is walked.
    pub closed spec fn names(&self) -> Seq<Seq<char>> {
        texts(self.names@)
    }

    /// An empty set.
    pub fn new() -> (r: Self)
        ensures
            r@ == Set::<Seq<char>>::empty(),
            r.names() == Seq::<Seq<char>>::empty(),
    {
        let r = NameSet { names: Vec::new() };
        proof {
            assert(texts(r.names@) =~= Seq::<Seq<char>>::empty());
            assert(r@ =~= Set::<Seq<char>>::empty());
        }
        r
    }

    /// The number of names; they are in strictly ascending order and are the set.
    pub fn len(&self) -> (n: usize)
        ensures
            n == self.names().len(),
            strictly_ascending(self.names()),
            self@ == self.names().to_set(),
    {
        proof {
            use_type_invariant(self);
        }
        self.names.len()
    }

    /// The name at a position of the walk.
    pub fn name_at(&self, i: usize) -> (r: &String)
        requires
            i < self.names().len(),
        ensures
            r@ == self.names()[i as int],
    {
        &self.names[i]
    }

    /// Whether a name is in the set.
    pub fn contains(&self, name: &str) -> (r: bool)
        ensures
            r == self@.contains(name@),
    {
        proof {
            use_type_invariant(self);
        }
        let p = place_of(&self.names, name);
        if p < self.names.len() && text_eq(self.names[p].as_str(), name) {
            proof {
                assert(texts(self.names@)[p as int] == name@);
            }
            true
        } else {
            proof {
                lemma_place_absent(texts(self.names@), name@, p as int);
            }
            false
        }
    }

    /// Adds a name.
    pub fn insert(&mut self, name: String)
        ensures
            final(self)@ == old(self)@.insert(name@),
    {
        proof {
            use_type_invariant(&*self);
        }
        let ghost ks = texts(self.names@);
        let p = place_of(&self.names, name.as_str());
        if p < self.names.len() && text_eq(self.names[p].as_str(), name.as_str()) {
            proof {
                assert(ks[p as int] == name@);
                assert(self@.insert(name@) =~= self@);
            }
        } else {
            let mut names: Vec<String> = Vec::new();
            std::mem::swap(&mut names, &mut self.names);
            names.insert(p, name);
            proof {
                lemma_insert_at(ks, ks, name@, name@, p as int);
                assert(texts(names@) =~= ks.insert(p as int, name@));
                let a = texts(names@).to_set();
                let b = ks.to_set().insert(name@);
                assert forall|k: Seq<char>| a.contains(k) == b.contains(k) by {
                    let m = map_of(ks.insert(p as int, name@), ks.insert(p as int, name@));
                    assert(m.dom().contains(k) == map_of(ks, ks).insert(name@, name@).dom().contains(
                        k,
                    ));
                }
                assert(a =~= b);
            }
            *self = NameSet { names };
        }
    }
}

// ---------------------------------------------------------------------
// Copies
// ---------------------------------------------------------------------

/// A value that can be copied, the copy having the same view.
pub trait Dup: View + Sized {
    /// A copy of the value.
    fn dup(&self) -> (r: Self)
        ensures
            r@ == self@,
    ;
}

impl Dup for String {
    fn dup(&self) -> (r: String) {
        self.clone()
    }
}

impl<V: Dup> Dup for SortedMap<V> {
    fn dup(&self) -> (r: SortedMap<V>)
        ensures
            r.keys() == self.keys(),
    {
        proof {
            use_type_invariant(self);
        }
        let mut keys: Vec<String> = Vec::new();
        let mut values: Vec<V> = Vec::new();
        let mut i: usize = 0;
        while i < self.keys.len()
            invariant
                self.keys@.len() == self.values@.len(),
                i <= self.keys@.len(),
                keys@.len() == i,
                values@.len() == i,
                forall|j: int| 0 <= j < i ==> (#[trigger] keys@[j])@ == self.keys@[j]@,
                forall|j: int| 0 <= j < i ==> (#[trigger] values@[j])@ == self.values@[j]@,
            decreases self.keys.len() - i,
        {
            keys.push(self.keys[i].clone());
            values.push(self.values[i].dup());
            i += 1;
        }
        proof {
            let f = |v: V| v@;
            assert(texts(keys@) =~= texts(self.keys@));
            assert(values@.map_values(f) =~= self.values@.map_values(f));
        }
        SortedMap { keys, values }
    }
}

/// The list holds the members of the set, each once, in ascending order.
pub open spec fn lists_members(list: Seq<Seq<char>>, set: Set<Seq<char>>) -> bool {
    &&& strictly_ascending(list)
    &&& forall|k: Seq<char>| list.contains(k) <==> #[trigger] set.contains(k)
}

/// The members of a set, each once, in ascending order.
pub open spec fn ascending_members(set: Set<Seq<char>>) -> Seq<Seq<char>> {
    choose|list: Seq<Seq<char>>| #[trigger] lists_members(list, set)
}

/// The one list that holds the members of a set in ascending order.
pub proof fn lemma_ascending_members(list: Seq<Seq<char>>, set: Set<Seq<char>>)
    requires
        lists_members(list, set),
    ensures
        list == ascending_members(set),
{
    let chosen = ascending_members(set);
    assert(lists_members(chosen, set));
    assert forall|k: Seq<char>| list.contains(k) <==> chosen.contains(k) by {
        assert(list.contains(k) <==> set.contains(k));
        assert(chosen.contains(k) <==> set.contains(k));
    }
    lemma_ascending_determined(list, chosen);
}

/// Two ascending lists with the same members are the same list.
pub proof fn lemma_ascending_determined(a: Seq<Seq<char>>, b: Seq<Seq<char>>)
    requires
        strictly_ascending(a),
        strictly_ascending(b),
        forall|k: Seq<char>| a.contains(k) <==> b.contains(k),
    ensures
        a == b,
    decreases a.len(),
{
    if a.len() == 0 {
        if b.len() > 0 {
            assert(b.contains(b[0]));
            assert(a.contains(b[0]));
        }
        assert(a =~= b);
    } else {
        assert(a.contains(a[0]));
        assert(b.contains(a[0]));
        assert(b.contains(b[0]));
        assert(a.contains(b[0]));
        let i = choose|i: int| 0 <= i < b.len() && b[i] == a[0];
        let j = choose|j: int| 0 <= j < a.len() && a[j] == b[0];
        if i > 0 {
            assert(text_lt(b[0], b[i]));
            if j > 0 {
                assert(text_lt(a[0], a[j]));
                lemma_text_lt_asymmetric(a[0], b[0]);
            } else {
                lemma_text_lt_irreflexive(a[0]);
            }
        }
        assert(a[0] == b[0]);
        let ra = a.skip(1);
        let rb = b.skip(1);
        assert(strictly_ascending(ra)) by {
            assert forall|x: int, y: int| 0 <= x < y < ra.len() implies #[trigger] text_lt(
                ra[x],
                ra[y],
            ) by {
                assert(text_lt(a[x + 1], a[y + 1]));
            }
        }
        assert(strictly_ascending(rb)) by {
            assert forall|x: int, y: int| 0 <= x < y < rb.len() implies #[trigger] text_lt(
                rb[x],
                rb[y],
            ) by {
                assert(text_lt(b[x + 1], b[y + 1]));
            }
        }
        assert forall|k: Seq<char>| ra.contains(k) <==> rb.contains(k) by {
            if ra.contains(k) {
                let x = choose|x: int| 0 <= x < ra.len() && ra[x] == k;
                assert(a[x + 1] == k);
                assert(a.contains(k));
                let y = choose|y: int| 0 <= y < b.len() && b[y] == k;
                if y == 0 {
                    lemma_ascending_unique(a, 0, x + 1);
                }
                assert(rb[y - 1] == k);
            }
            if rb.contains(k) {
                let x = choose|x: int| 0 <= x < rb.len() && rb[x] == k;
                assert(b[x + 1] == k);
                assert(b.contains(k));
                let y = choose|y: int| 0 <= y < a.len() && a[y] == k;
                if y == 0 {
                    lemma_ascending_unique(b, 0, x + 1);
                }
                assert(ra[y - 1] == k);
            }
        }
        lemma_ascending_determined(ra, rb);
        assert(a =~= seq![a[0]] + ra);
        assert(b =~= seq![b[0]] + rb);
    }
}

/// The texts of a list of strings stand in the order of the strings.
pub proof fn law_texts_in_order(strings: Seq<String>)
    ensures
        texts(strings).len() == strings.len(),
        forall|i: int| 0 <= i < strings.len() ==> #[trigger] texts(strings)[i] == strings[i]@,
{
}

/// The members of a set that a list holds in ascending order are found in that order: each
/// once, none missing, each before those that come after it.
pub proof fn law_ascending_members(list: Seq<Seq<char>>, set: Set<Seq<char>>)
    requires
        forall|i: int, j: int| 0 <= i < j < list.len() ==> text_lt(#[trigger] list[i], #[trigger] list[j]),
        forall|k: Seq<char>| #[trigger] list.contains(k) <==> set.contains(k),
    ensures
        ascending_members(set) == list,
{
    assert(lists_members(list, set)) by {
        assert(strictly_ascending(list));
        assert forall|k: Seq<char>| list.contains(k) <==> #[trigger] set.contains(k) by {
            assert(list.contains(k) <==> set.contains(k));
        }
    }
    lemma_ascending_members(list, set);
}

} // verus!
