//! Identifiers as strings: lists of them, searches in them, and a map keyed
//! by them.
//!
//! Identifiers in this crate are `String`s; the contracts speak of their
//! characters. The map below has the model `Map<Seq<char>, V>` and a fixed
//! iteration order, the order in which the keys were first inserted.

use vstd::prelude::*;

verus! {

/// The characters of each string of a sequence.
pub open spec fn texts(s: Seq<String>) -> Seq<Seq<char>> {
    Seq::new(s.len(), |i: int| s[i]@)
}

/// The characters of each string slice of a sequence.
pub open spec fn slice_texts(s: Seq<&str>) -> Seq<Seq<char>> {
    Seq::new(s.len(), |i: int| s[i]@)
}

/// The items of `s`, each once, in the order in which they first occur.
pub open spec fn first_seen(s: Seq<Seq<char>>) -> Seq<Seq<char>>
    decreases s.len(),
{
    if s.len() == 0 {
        Seq::empty()
    } else if first_seen(s.drop_last()).contains(s.last()) {
        first_seen(s.drop_last())
    } else {
        first_seen(s.drop_last()).push(s.last())
    }
}

/// Whether `i` is the first position of `s` that holds `x`.
pub open spec fn is_first_index(s: Seq<Seq<char>>, x: Seq<char>, i: int) -> bool {
    &&& 0 <= i < s.len()
    &&& s[i] == x
    &&& forall|j: int| 0 <= j < i ==> s[j] != x
}

/// The first position of `s` that holds `x`. Meaningful when `s` contains `x`.
pub open spec fn first_index(s: Seq<Seq<char>>, x: Seq<char>) -> int {
    choose|i: int| is_first_index(s, x, i)
}

/// A sequence that contains `x` has exactly one first position of `x`.
pub proof fn lemma_first_index(s: Seq<Seq<char>>, x: Seq<char>)
    requires
        s.contains(x),
    ensures
        is_first_index(s, x, first_index(s, x)),
        forall|i: int| is_first_index(s, x, i) ==> i == first_index(s, x),
{
    let k = choose|k: int| 0 <= k < s.len() && s[k] == x;
    lemma_first_index_below(s, x, k);
}

/// An occurrence at `k` has a first occurrence at or before it.
proof fn lemma_first_index_below(s: Seq<Seq<char>>, x: Seq<char>, k: int)
    requires
        0 <= k < s.len(),
        s[k] == x,
    ensures
        exists|i: int| is_first_index(s, x, i),
    decreases k,
{
    if exists|j: int| 0 <= j < k && s[j] == x {
        let j = choose|j: int| 0 <= j < k && s[j] == x;
        lemma_first_index_below(s, x, j);
    } else {
        assert(is_first_index(s, x, k));
    }
}

/// The first position of `ids` that holds `key`, if any.
pub fn find_text(ids: &Vec<String>, key: &String) -> (r: Option<usize>)
    ensures
        match r {
            Some(i) => is_first_index(texts(ids@), key@, i as int) && i as int == first_index(
                texts(ids@),
                key@,
            ),
            None => !texts(ids@).contains(key@),
        },
{
    let mut i: usize = 0;
    while i < ids.len()
        invariant
            i <= ids@.len(),
            forall|j: int| 0 <= j < i ==> texts(ids@)[j] != key@,
        decreases ids@.len() - i,
    {
        if ids[i] == *key {
            proof {
                assert(texts(ids@)[i as int] == key@);
                assert(texts(ids@).contains(key@));
                lemma_first_index(texts(ids@), key@);
            }
            return Some(i);
        }
        i += 1;
    }
    None
}

/// How often the text of `key` occurs among the first `upto` items.
pub fn count_text(items: &Vec<String>, upto: usize, key: &String) -> (n: usize)
    requires
        upto <= items@.len(),
    ensures
        n == texts(items@).take(upto as int).to_multiset().count(key@),
        n <= upto,
{
    let mut n: usize = 0;
    let mut i: usize = 0;
    assert(texts(items@).take(0) =~= Seq::<Seq<char>>::empty());
    proof {
        vstd::seq_lib::to_multiset_len(texts(items@).take(0));
    }
    while i < upto
        invariant
            i <= upto,
            upto <= items@.len(),
            n <= i,
            n == texts(items@).take(i as int).to_multiset().count(key@),
        decreases upto - i,
    {
        proof {
            let front = texts(items@).take(i as int);
            assert(texts(items@).take(i as int + 1) =~= front.push(items@[i as int]@));
            vstd::seq_lib::to_multiset_build(front, items@[i as int]@);
        }
        if items[i] == *key {
            n += 1;
        }
        i += 1;
    }
    n
}

/// A copy of a list of strings.
pub fn copy_texts(items: &Vec<String>) -> (out: Vec<String>)
    ensures
        texts(out@) == texts(items@),
{
    let mut out: Vec<String> = Vec::new();
    let mut i: usize = 0;
    while i < items.len()
        invariant
            i <= items@.len(),
            out@.len() == i,
            forall|j: int| 0 <= j < i ==> (#[trigger] out@[j])@ == items@[j]@,
        decreases items@.len() - i,
    {
        out.push(items[i].clone());
        i += 1;
    }
    assert(texts(out@) =~= texts(items@));
    out
}

/// Map from string keys to values. No key occurs twice.
#[derive(Debug)]
pub struct StringMap<V> {
    entries: Vec<(String, V)>,
}

impl<V> StringMap<V> {
    /// No key occurs twice.
    #[verifier::type_invariant]
    spec fn distinct_keys(&self) -> bool {
        forall|i: int, j: int|
            0 <= i < j < self.entries@.len() ==> self.entries@[i].0@ != self.entries@[j].0@
    }

    /// The keys, in the order in which they were first inserted.
    pub closed spec fn keys(&self) -> Seq<Seq<char>> {
        Seq::new(self.entries@.len(), |i: int| self.entries@[i].0@)
    }

    /// The value stored at position `i` of the insertion order.
    pub closed spec fn value_at_spec(&self, i: int) -> V {
        self.entries@[i].1
    }

    /// The map as a mathematical map from the characters of a key to its value.
    pub closed spec fn view(&self) -> Map<Seq<char>, V> {
        Map::new(
            |k: Seq<char>| self.keys().contains(k),
            |k: Seq<char>| self.entries@[self.keys().index_of(k)].1,
        )
    }

    /// An empty map.
    pub fn new() -> (m: Self)
        ensures
            m@ == Map::<Seq<char>, V>::empty(),
            m.keys() == Seq::<Seq<char>>::empty(),
    {
        let m = StringMap { entries: Vec::new() };
        assert(m.keys() =~= Seq::<Seq<char>>::empty());
        assert(m@ =~= Map::<Seq<char>, V>::empty());
        m
    }

    /// Number of keys.
    pub fn len(&self) -> (n: usize)
        ensures
            n == self.keys().len(),
            n == self@.dom().len(),
            self@.dom().finite(),
            self.keys().no_duplicates(),
            self@.dom() == self.keys().to_set(),
    {
        proof {
            use_type_invariant(self);
            let ks = self.keys();
            assert(ks.no_duplicates());
            assert(self@.dom() =~= ks.to_set());
            ks.unique_seq_to_set();
            vstd::seq_lib::seq_to_set_is_finite(ks);
        }
        self.entries.len()
    }

    /// Whether the map holds no key.
    pub fn is_empty(&self) -> (b: bool)
        ensures
            b == (self.keys().len() == 0),
            b == (self@.dom() == Set::<Seq<char>>::empty()),
    {
        proof {
            if self.keys().len() > 0 {
                assert(self.keys().contains(self.keys()[0]));
                assert(self@.dom().contains(self.keys()[0]));
            } else {
                assert(self@.dom() =~= Set::<Seq<char>>::empty());
            }
        }
        self.entries.len() == 0
    }

    /// Position of `key` in the insertion order.
    fn position(&self, key: &String) -> (r: Option<usize>)
        ensures
            match r {
                Some(i) => i < self.keys().len() && self.keys()[i as int] == key@,
                None => !self.keys().contains(key@),
            },
    {
        let mut i: usize = 0;
        while i < self.entries.len()
            invariant
                i <= self.entries@.len(),
                forall|j: int| 0 <= j < i ==> self.entries@[j].0@ != key@,
            decreases self.entries@.len() - i,
        {
            if self.entries[i].0 == *key {
                return Some(i);
            }
            i += 1;
        }
        None
    }

    /// Whether `key` is in the map.
    pub fn contains_key(&self, key: &str) -> (b: bool)
        ensures
            b == self@.contains_key(key@),
            b == self.keys().contains(key@),
    {
        let owned = key.to_owned();
        self.position(&owned).is_some()
    }

    /// The value stored for `key`, if any.
    pub fn get(&self, key: &str) -> (r: Option<&V>)
        ensures
            match r {
                Some(v) => self@.contains_key(key@) && *v == self@[key@],
                None => !self@.contains_key(key@),
            },
    {
        proof {
            use_type_invariant(self);
        }
        let owned = key.to_owned();
        match self.position(&owned) {
            Some(i) => {
                assert(self.keys().contains(key@));
                assert(self.keys().index_of(key@) == i as int);
                Some(&self.entries[i].1)
            },
            None => None,
        }
    }

    /// Stores `value` for `key`, replacing what was stored for it before.
    /// A new key goes to the end of the insertion order.
    pub fn insert(&mut self, key: String, value: V)
        ensures
            final(self)@ == old(self)@.insert(key@, value),
            final(self).keys() == if old(self).keys().contains(key@) {
                old(self).keys()
            } else {
                old(self).keys().push(key@)
            },
    {
        proof {
            use_type_invariant(&*self);
        }
        let ghost before = *self;
        let ghost k = key@;
        let found = self.position(&key);
        let mut entries: Vec<(String, V)> = Vec::new();
        std::mem::swap(&mut entries, &mut self.entries);
        match found {
            Some(i) => {
                entries.set(i, (key, value));
                self.entries = entries;
                proof {
                    assert(self.keys() =~= before.keys());
                    assert forall|q: Seq<char>| self.keys().contains(q) implies #[trigger] self@[q]
                        == before@.insert(k, value)[q] by {
                        let j = self.keys().index_of(q);
                        assert(before.keys()[j] == q);
                    }
                    assert(self@ =~= before@.insert(k, value));
                }
            },
            None => {
                entries.push((key, value));
                proof {
                    assert forall|i: int, j: int| 0 <= i < j < entries@.len() implies entries@[i].0@
                        != entries@[j].0@ by {
                        if j == entries@.len() - 1 {
                            assert(before.keys()[i] == entries@[i].0@);
                            assert(before.keys().contains(entries@[i].0@));
                        }
                    }
                }
                self.entries = entries;
                proof {
                    assert(self.keys() =~= before.keys().push(k));
                    assert(self.keys()[before.keys().len() as int] == k);
                    assert forall|q: Seq<char>| #[trigger] self.keys().contains(q) == (q == k
                        || before.keys().contains(q)) by {
                        if before.keys().contains(q) {
                            let j = before.keys().index_of(q);
                            assert(self.keys()[j] == q);
                        }
                    }
                    assert forall|q: Seq<char>| self.keys().contains(q) implies #[trigger] self@[q]
                        == before@.insert(k, value)[q] by {
                        let j = self.keys().index_of(q);
                        if q != k {
                            assert(before.keys()[j] == q);
                            assert(before.keys().index_of(q) == j);
                        }
                    }
                    assert(self@ =~= before@.insert(k, value));
                }
            },
        }
    }

    /// The key at position `i` of the insertion order.
    pub fn key_at(&self, i: usize) -> (k: &String)
        requires
            i < self.keys().len(),
        ensures
            k@ == self.keys()[i as int],
            self@.contains_key(k@),
    {
        assert(self.keys().contains(self.keys()[i as int]));
        &self.entries[i].0
    }

    /// The value at position `i` of the insertion order.
    pub fn value_at(&self, i: usize) -> (v: &V)
        requires
            i < self.keys().len(),
        ensures
            *v == self@[self.keys()[i as int]],
            *v == self.value_at_spec(i as int),
    {
        proof {
            use_type_invariant(self);
            let k = self.keys()[i as int];
            assert(self.keys().contains(k));
            assert(self.keys().index_of(k) == i as int);
        }
        &self.entries[i].1
    }
}

impl<V: Clone> Clone for StringMap<V> {
    /// A copy with the same keys in the same order, each value cloned.
    fn clone(&self) -> (m: Self)
        ensures
            m.keys() == self.keys(),
            m@.dom() == self@.dom(),
            forall|i: int|
                0 <= i < self.keys().len() ==> cloned::<V>(
                    #[trigger] self.value_at_spec(i),
                    m.value_at_spec(i),
                ),
    {
        proof {
            use_type_invariant(self);
        }
        let mut entries: Vec<(String, V)> = Vec::new();
        let mut i: usize = 0;
        while i < self.entries.len()
            invariant
                i <= self.entries@.len(),
                entries@.len() == i,
                forall|j: int| 0 <= j < i ==> entries@[j].0@ == self.entries@[j].0@,
                forall|j: int| 0 <= j < i ==> cloned::<V>(self.entries@[j].1, #[trigger] entries@[j].1),
            decreases self.entries@.len() - i,
        {
            let key = self.entries[i].0.clone();
            let value = self.entries[i].1.clone();
            entries.push((key, value));
            i += 1;
        }
        let m = StringMap { entries };
        proof {
            assert(m.keys() =~= self.keys());
            assert(m@.dom() =~= self@.dom());
        }
        m
    }
}

} // verus!
