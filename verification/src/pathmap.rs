//! A map from paths to values that is kept in the byte order of the paths.
use vstd::prelude::*;
use crate::path::{is_under, lies_under};
use crate::text::{order_of, precedes, precedes_asymmetric, precedes_irreflexive,
    precedes_transitive, to_chars, Order};

verus! {

/// A path and the value that belongs to it.
pub struct Slot<V> {
    pub key: String,
    pub value: V,
}

/// A map from paths to values. Its slots are sorted by key, and no key occurs twice.
pub struct PathMap<V> {
    slots: Vec<Slot<V>>,
}

/// The paths in `slots` are strictly increasing.
pub open spec fn is_sorted(keys: Seq<Seq<char>>) -> bool {
    forall|i: int, j: int| 0 <= i < j < keys.len() ==> precedes(#[trigger] keys[i], #[trigger] keys[j])
}

impl<V> PathMap<V> {
    /// The paths, in order.
    pub closed spec fn keys(self) -> Seq<Seq<char>> {
        Seq::new(self.slots@.len(), |i: int| self.slots@[i].key@)
    }

    /// The values, in the order of their paths.
    pub closed spec fn values(self) -> Seq<V> {
        Seq::new(self.slots@.len(), |i: int| self.slots@[i].value)
    }

    /// The map that the paths and values make up.
    pub open spec fn view(self) -> Map<Seq<char>, V> {
        zipped(self.keys(), self.values())
    }

    /// The paths are in order, and each has a value.
    pub open spec fn wf(self) -> bool {
        &&& is_sorted(self.keys())
        &&& self.keys().len() == self.values().len()
    }
}

/// The texts of some strings.
pub open spec fn texts(strings: Seq<String>) -> Seq<Seq<char>> {
    strings.map_values(|s: String| s@)
}

/// The map from each of `keys` to the value at the same place.
pub open spec fn zipped<V>(keys: Seq<Seq<char>>, values: Seq<V>) -> Map<Seq<char>, V> {
    Map::new(|k: Seq<char>| keys.contains(k), |k: Seq<char>| values[keys.index_of(k)])
}

/// In sorted keys every key has one place.
pub proof fn lemma_sorted_distinct(keys: Seq<Seq<char>>)
    requires
        is_sorted(keys),
    ensures
        keys.no_duplicates(),
        forall|i: int| 0 <= i < keys.len() ==> keys.index_of(#[trigger] keys[i]) == i,
{
    assert forall|i: int, j: int| 0 <= i < keys.len() && 0 <= j < keys.len() && i != j implies keys[i]
        != keys[j] by {
        if i < j {
            assert(precedes(keys[i], keys[j]));
            precedes_irreflexive(keys[i]);
        } else {
            assert(precedes(keys[j], keys[i]));
            precedes_irreflexive(keys[i]);
        }
    }
    assert forall|i: int| 0 <= i < keys.len() implies keys.index_of(#[trigger] keys[i]) == i by {
        assert(keys.contains(keys[i]));
    }
}

/// Keys that are sorted and the same as a set are the same as a sequence.
pub proof fn lemma_sorted_unique(a: Seq<Seq<char>>, b: Seq<Seq<char>>)
    requires
        is_sorted(a),
        is_sorted(b),
        forall|k: Seq<char>| #[trigger] a.contains(k) <==> b.contains(k),
    ensures
        a == b,
    decreases a.len(),
{
    if a.len() == 0 {
        if b.len() > 0 {
            assert(b.contains(b[0]));
            assert(a.contains(b[0]));
        }
        assert(a =~= b);
    } else {
        assert(a.contains(a[0]));
        assert(b.contains(a[0]));
        let x = a.last();
        let y = b.last();
        assert(a.contains(a[a.len() - 1]));
        assert(b.contains(b[b.len() - 1]));
        let i = choose|i: int| 0 <= i < b.len() && b[i] == x;
        assert(b.contains(x));
        assert(a.contains(y));
        let j = choose|j: int| 0 <= j < a.len() && a[j] == y;
        if x != y {
            assert(precedes(b[i], b[b.len() - 1]));
            assert(precedes(a[j], a[a.len() - 1]));
            precedes_asymmetric(x, y);
        }
        let c = a.drop_last();
        let d = b.drop_last();
        lemma_sorted_distinct(a);
        lemma_sorted_distinct(b);
        assert(is_sorted(c)) by {
            assert forall|i: int, j: int| 0 <= i < j < c.len() implies precedes(
                #[trigger] c[i],
                #[trigger] c[j],
            ) by {
                assert(precedes(a[i], a[j]));
            }
        }
        assert(is_sorted(d)) by {
            assert forall|i: int, j: int| 0 <= i < j < d.len() implies precedes(
                #[trigger] d[i],
                #[trigger] d[j],
            ) by {
                assert(precedes(b[i], b[j]));
            }
        }
        assert forall|k: Seq<char>| #[trigger] c.contains(k) <==> d.contains(k) by {
            if c.contains(k) {
                let p = choose|p: int| 0 <= p < c.len() && c[p] == k;
                assert(a[p] == k);
                assert(a.contains(k));
                assert(b.contains(k));
                let q = choose|q: int| 0 <= q < b.len() && b[q] == k;
                assert(q < b.len() - 1);
                assert(d[q] == k);
            }
            if d.contains(k) {
                let p = choose|p: int| 0 <= p < d.len() && d[p] == k;
                assert(b[p] == k);
                assert(b.contains(k));
                assert(a.contains(k));
                let q = choose|q: int| 0 <= q < a.len() && a[q] == k;
                assert(q < a.len() - 1);
                assert(c[q] == k);
            }
        }
        lemma_sorted_unique(c, d);
        assert(a =~= c.push(x));
        assert(b =~= d.push(y));
    }
}

/// Each path maps to the value in its place.
pub proof fn lemma_zipped<V>(keys: Seq<Seq<char>>, values: Seq<V>)
    requires
        is_sorted(keys),
    ensures
        forall|i: int|
            0 <= i < keys.len() ==> zipped(keys, values).contains_key(#[trigger] keys[i]) && zipped(
                keys,
                values,
            )[keys[i]] == values[i],
        forall|k: Seq<char>|
            zipped(keys, values).contains_key(k) ==> exists|i: int|
                0 <= i < keys.len() && #[trigger] keys[i] == k,
{
    lemma_sorted_distinct(keys);
}

impl<V> PathMap<V> {
    /// A map without paths.
    pub fn new() -> (r: Self)
        ensures
            r.wf(),
            r.keys().len() == 0,
            r@ == Map::<Seq<char>, V>::empty(),
    {
        let r = PathMap { slots: Vec::new() };
        assert(r@ =~= Map::<Seq<char>, V>::empty());
        r
    }

    /// The number of paths.
    pub fn len(&self) -> (r: usize)
        ensures
            r == self.keys().len(),
            r == self.values().len(),
    {
        self.slots.len()
    }

    /// The path at place `i`.
    pub fn key(&self, i: usize) -> (r: &String)
        requires
            i < self.keys().len(),
        ensures
            r@ == self.keys()[i as int],
    {
        &self.slots[i].key
    }

    /// The value at place `i`.
    pub fn value(&self, i: usize) -> (r: &V)
        requires
            i < self.keys().len(),
        ensures
            *r == self.values()[i as int],
    {
        &self.slots[i].value
    }

    /// The place of `key`, or the place at which it belongs.
    fn place(&self, key: &str) -> (r: (bool, usize))
        requires
            self.wf(),
        ensures
            r.1 <= self.keys().len(),
            forall|i: int| 0 <= i < r.1 ==> precedes(#[trigger] self.keys()[i], key@),
            r.0 ==> r.1 < self.keys().len() && self.keys()[r.1 as int] == key@,
            !r.0 ==> !self.keys().contains(key@),
            forall|i: int|
                r.1 <= i < self.keys().len() && !(r.0 && i == r.1) ==> precedes(
                    key@,
                    #[trigger] self.keys()[i],
                ),
    {
        let mut low: usize = 0;
        let mut high: usize = self.slots.len();
        #[verifier::loop_isolation(false)]
        while low < high
            invariant
                low <= high <= self.slots@.len(),
                self.keys().len() == self.slots@.len(),
                forall|i: int| 0 <= i < low ==> precedes(#[trigger] self.keys()[i], key@),
                forall|i: int|
                    high <= i < self.keys().len() ==> precedes(key@, #[trigger] self.keys()[i]),
            decreases high - low,
        {
            let middle: usize = low + (high - low) / 2;
            match order_of(self.slots[middle].key.as_str(), key) {
                Order::Same => {
                    assert(self.keys()[middle as int] == key@);
                    return (true, middle);
                },
                Order::Before => {
                    assert forall|i: int| 0 <= i <= middle implies precedes(
                        #[trigger] self.keys()[i],
                        key@,
                    ) by {
                        if i < middle {
                            precedes_transitive(
                                self.keys()[i],
                                self.keys()[middle as int],
                                key@,
                            );
                        }
                    }
                    low = middle + 1;
                },
                Order::After => {
                    assert forall|i: int| middle <= i < self.keys().len() implies precedes(
                        key@,
                        #[trigger] self.keys()[i],
                    ) by {
                        if i > middle {
                            precedes_transitive(
                                key@,
                                self.keys()[middle as int],
                                self.keys()[i],
                            );
                        }
                    }
                    high = middle;
                },
            }
        }
        proof {
            precedes_irreflexive(key@);
            assert forall|i: int| 0 <= i < self.keys().len() implies self.keys()[i] != key@ by {}
        }
        (false, low)
    }

    /// Whether `key` has a value.
    pub fn contains(&self, key: &str) -> (r: bool)
        requires
            self.wf(),
        ensures
            r == self@.contains_key(key@),
    {
        let (found, at) = self.place(key);
        found
    }

    /// The value of `key`.
    pub fn get(&self, key: &str) -> (r: Option<&V>)
        requires
            self.wf(),
        ensures
            match r {
                Some(v) => self@.contains_key(key@) && *v == self@[key@],
                None => !self@.contains_key(key@),
            },
    {
        let (found, at) = self.place(key);
        if found {
            proof {
                lemma_zipped(self.keys(), self.values());
            }
            Some(&self.slots[at].value)
        } else {
            None
        }
    }

    /// The paths of `directory` and of all that lies below it, in order.
    pub fn keys_under(&self, directory: &str) -> (r: Vec<String>)
        requires
            self.wf(),
        ensures
            is_sorted(texts(r@)),
            forall|k: Seq<char>| #[trigger]
                texts(r@).contains(k) <==> self@.contains_key(k) && is_under(k, directory@),
    {
        let top: Vec<char> = to_chars(directory);
        let mut r: Vec<String> = Vec::new();
        let mut i: usize = 0;
        let ghost keys = self.keys();
        #[verifier::loop_isolation(false)]
        while i < self.slots.len()
            invariant
                i <= self.slots.len(),
                keys.len() == self.slots.len(),
                is_sorted(texts(r@)),
                forall|k: Seq<char>| #[trigger]
                    texts(r@).contains(k) <==> keys.take(i as int).contains(k) && is_under(
                        k,
                        directory@,
                    ),
            decreases self.slots.len() - i,
        {
            let key = &self.slots[i].key;
            let chars: Vec<char> = to_chars(key.as_str());
            let ghost before = texts(r@);
            let ghost seen = keys.take(i as int);
            let ghost more = keys.take(i + 1);
            assert(more =~= seen.push(key@));
            if lies_under(chars.as_slice(), top.as_slice()) {
                r.push(key.clone());
                proof {
                    let after = texts(r@);
                    assert(after =~= before.push(key@));
                    assert forall|a: int, b: int| 0 <= a < b < after.len() implies precedes(
                        #[trigger] after[a],
                        #[trigger] after[b],
                    ) by {
                        if b == before.len() {
                            assert(before.contains(before[a]));
                            let c = choose|c: int| 0 <= c < seen.len() && seen[c] == before[a];
                            assert(precedes(keys[c], keys[i as int]));
                        } else {
                            assert(precedes(before[a], before[b]));
                        }
                    }
                    assert forall|k: Seq<char>| #[trigger] after.contains(k) <==> more.contains(k)
                        && is_under(k, directory@) by {
                        lemma_push_contains(before, key@, k);
                        lemma_push_contains(seen, key@, k);
                    }
                }
            } else {
                proof {
                    assert forall|k: Seq<char>| #[trigger] before.contains(k) <==> more.contains(k)
                        && is_under(k, directory@) by {
                        lemma_push_contains(seen, key@, k);
                    }
                }
            }
            i += 1;
        }
        assert(keys.take(i as int) =~= keys);
        r
    }

    /// Gives `key` a value and returns the one that it had.
    pub fn insert(&mut self, key: String, value: V) -> (r: Option<V>)
        requires
            old(self).wf(),
        ensures
            final(self).wf(),
            final(self)@ == old(self)@.insert(key@, value),
            match r {
                Some(v) => old(self)@.contains_key(key@) && v == old(self)@[key@],
                None => !old(self)@.contains_key(key@),
            },
            final(self).keys().len() == old(self).keys().len() + if r is Some {
                0int
            } else {
                1
            },
    {
        let (found, at) = self.place(key.as_str());
        let ghost k = key@;
        let ghost keys = self.keys();
        let ghost values = self.values();
        proof {
            lemma_zipped(keys, values);
        }
        if found {
            let previous = self.slots.remove(at);
            self.slots.insert(at, Slot { key, value });
            proof {
                assert(self.keys() =~= keys);
                assert(self.values() =~= values.update(at as int, value));
                lemma_zipped(self.keys(), self.values());
                assert(self@ =~= old(self)@.insert(k, value)) by {
                    lemma_same_map(self.keys(), self.values(), old(self)@.insert(k, value));
                }
            }
            Some(previous.value)
        } else {
            self.slots.insert(at, Slot { key, value });
            proof {
                assert(self.keys() =~= keys.insert(at as int, k));
                assert(self.values() =~= values.insert(at as int, value));
                lemma_insert_sorted(keys, at as int, k);
                lemma_zipped(self.keys(), self.values());
                assert forall|x: Seq<char>| #[trigger] old(self)@.insert(k, value).contains_key(
                    x,
                ) implies self.keys().contains(x) by {
                    if x == k {
                        assert(self.keys()[at as int] == k);
                    } else {
                        let i = choose|i: int| 0 <= i < keys.len() && keys[i] == x;
                        if i < at {
                            assert(self.keys()[i] == x);
                        } else {
                            assert(self.keys()[i + 1] == x);
                        }
                    }
                }
                lemma_same_map(self.keys(), self.values(), old(self)@.insert(k, value));
            }
            None
        }
    }

    /// Takes away the value of `key` and returns it.
    pub fn remove(&mut self, key: &str) -> (r: Option<V>)
        requires
            old(self).wf(),
        ensures
            final(self).wf(),
            final(self)@ == old(self)@.remove(key@),
            match r {
                Some(v) => old(self)@.contains_key(key@) && v == old(self)@[key@],
                None => !old(self)@.contains_key(key@),
            },
            final(self).keys().len() == old(self).keys().len() - if r is Some {
                1int
            } else {
                0
            },
    {
        let (found, at) = self.place(key);
        let ghost keys = self.keys();
        let ghost values = self.values();
        proof {
            lemma_zipped(keys, values);
            lemma_sorted_distinct(keys);
        }
        if found {
            let previous = self.slots.remove(at);
            proof {
                assert(self.keys() =~= keys.remove(at as int));
                assert(self.values() =~= values.remove(at as int));
                assert forall|i: int, j: int| 0 <= i < j < self.keys().len() implies precedes(
                    #[trigger] self.keys()[i],
                    #[trigger] self.keys()[j],
                ) by {
                    let a = if i < at { i } else { i + 1 };
                    let b = if j < at { j } else { j + 1 };
                    assert(precedes(keys[a], keys[b]));
                }
                lemma_zipped(self.keys(), self.values());
                assert forall|x: Seq<char>| #[trigger] old(self)@.remove(key@).contains_key(
                    x,
                ) implies self.keys().contains(x) by {
                    let i = choose|i: int| 0 <= i < keys.len() && keys[i] == x;
                    if i < at {
                        assert(self.keys()[i] == x);
                    } else {
                        assert(self.keys()[i - 1] == x);
                    }
                }
                lemma_same_map(self.keys(), self.values(), old(self)@.remove(key@));
            }
            Some(previous.value)
        } else {
            proof {
                assert(old(self)@.remove(key@) =~= old(self)@);
            }
            None
        }
    }
}

/// What a sequence holds after one more element.
pub proof fn lemma_push_contains<A>(s: Seq<A>, x: A, y: A)
    ensures
        s.push(x).contains(y) <==> s.contains(y) || x == y,
{
    if s.contains(y) {
        let i = choose|i: int| 0 <= i < s.len() && s[i] == y;
        assert(s.push(x)[i] == y);
    }
    if x == y {
        assert(s.push(x)[s.len() as int] == y);
    }
}

/// A key that fits between its neighbours keeps the keys sorted.
proof fn lemma_insert_sorted(keys: Seq<Seq<char>>, at: int, key: Seq<char>)
    requires
        is_sorted(keys),
        0 <= at <= keys.len(),
        forall|i: int| 0 <= i < at ==> precedes(#[trigger] keys[i], key),
        forall|i: int| at <= i < keys.len() ==> precedes(key, #[trigger] keys[i]),
    ensures
        is_sorted(keys.insert(at, key)),
{
    let all = keys.insert(at, key);
    assert forall|i: int, j: int| 0 <= i < j < all.len() implies precedes(
        #[trigger] all[i],
        #[trigger] all[j],
    ) by {
        let a = if i < at { i } else { i - 1 };
        let b = if j < at { j } else { j - 1 };
        if i != at && j != at {
            assert(all[i] == keys[a]);
            assert(all[j] == keys[b]);
        } else if i == at {
            assert(all[j] == keys[b]);
        } else {
            assert(all[i] == keys[a]);
        }
    }
}

/// Keys and values make up `map` when they agree with it place by place and miss none of it.
proof fn lemma_same_map<V>(keys: Seq<Seq<char>>, values: Seq<V>, map: Map<Seq<char>, V>)
    requires
        is_sorted(keys),
        forall|i: int|
            0 <= i < keys.len() ==> map.contains_key(#[trigger] keys[i]) && map[keys[i]]
                == values[i],
        forall|k: Seq<char>| #[trigger] map.contains_key(k) ==> keys.contains(k),
    ensures
        zipped(keys, values) == map,
{
    lemma_zipped(keys, values);
    lemma_sorted_distinct(keys);
    assert(zipped(keys, values) =~= map);
}

} // verus!
