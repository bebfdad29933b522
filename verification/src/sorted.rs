//! A map from strings, walked in key order.

use vstd::prelude::*;
use crate::text::{lemma_precedes_irreflexive, lemma_precedes_total, lemma_precedes_transitive, precedes, str_precedes, str_same};

verus! {

/// Values with a copy that stands for the same thing.
pub trait Duplicate: DeepView + Sized {
    fn duplicate(&self) -> (r: Self)
        ensures
            r.deep_view() == self.deep_view(),
    ;
}

impl Duplicate for String {
    fn duplicate(&self) -> (r: Self) {
        self.clone()
    }
}

impl Duplicate for u64 {
    fn duplicate(&self) -> (r: Self) {
        *self
    }
}

impl<T: Duplicate> Duplicate for Option<T> {
    fn duplicate(&self) -> (r: Self) {
        match self {
            Some(x) => Some(x.duplicate()),
            None => None,
        }
    }
}

impl<T: Duplicate> Duplicate for Vec<T> {
    fn duplicate(&self) -> (r: Self) {
        let mut out: Vec<T> = Vec::new();
        let mut i: usize = 0;
        while i < self.len()
            invariant
                i <= self.len(),
                out@.len() == i,
                forall|j: int| 0 <= j < i ==> (#[trigger] out@[j]).deep_view() == self@[j].deep_view(),
            decreases self.len() - i,
        {
            out.push(self[i].duplicate());
            i = i + 1;
        }
        assert(out.deep_view() =~= self.deep_view());
        out
    }
}

/// Keys in strictly increasing order, so that no key occurs twice.
pub open spec fn in_order<T>(s: Seq<(Seq<char>, T)>) -> bool {
    forall|i: int, j: int| 0 <= i < j < s.len() ==> precedes(#[trigger] s[i].0, #[trigger] s[j].0)
}

/// The number of leading entries whose key precedes `k`.
pub open spec fn slot<T>(s: Seq<(Seq<char>, T)>, k: Seq<char>) -> int
    decreases s.len(),
{
    if s.len() > 0 && precedes(s[0].0, k) {
        1 + slot(s.drop_first(), k)
    } else {
        0
    }
}

/// Whether the entry at the slot of `k` is the entry of `k`.
pub open spec fn holds<T>(s: Seq<(Seq<char>, T)>, k: Seq<char>) -> bool {
    slot(s, k) < s.len() && s[slot(s, k)].0 == k
}

/// The value of a key.
pub open spec fn lookup<T>(s: Seq<(Seq<char>, T)>, k: Seq<char>) -> Option<T> {
    if holds(s, k) {
        Some(s[slot(s, k)].1)
    } else {
        None
    }
}

/// The map with the value of one key set.
pub open spec fn store<T>(s: Seq<(Seq<char>, T)>, k: Seq<char>, v: T) -> Seq<(Seq<char>, T)> {
    if holds(s, k) {
        s.update(slot(s, k), (k, v))
    } else {
        s.insert(slot(s, k), (k, v))
    }
}

pub proof fn lemma_slot<T>(s: Seq<(Seq<char>, T)>, k: Seq<char>)
    ensures
        0 <= slot(s, k) <= s.len(),
        forall|i: int| 0 <= i < slot(s, k) ==> precedes(#[trigger] s[i].0, k),
        slot(s, k) < s.len() ==> !precedes(s[slot(s, k)].0, k),
    decreases s.len(),
{
    if s.len() > 0 && precedes(s[0].0, k) {
        let rest = s.drop_first();
        lemma_slot(rest, k);
        assert forall|i: int| 0 <= i < slot(s, k) implies precedes(#[trigger] s[i].0, k) by {
            if i > 0 {
                assert(rest[i - 1] == s[i]);
            }
        }
        if slot(s, k) < s.len() {
            assert(rest[slot(rest, k)] == s[slot(s, k)]);
        }
    }
}

/// The slot is the only place with every entry before it preceding `k` and the entry at it not.
pub proof fn lemma_slot_unique<T>(s: Seq<(Seq<char>, T)>, k: Seq<char>, n: int)
    requires
        0 <= n <= s.len(),
        forall|i: int| 0 <= i < n ==> precedes(#[trigger] s[i].0, k),
        n < s.len() ==> !precedes(s[n].0, k),
    ensures
        slot(s, k) == n,
{
    lemma_slot(s, k);
    if slot(s, k) < n {
        assert(precedes(s[slot(s, k)].0, k));
    } else if n < slot(s, k) {
        assert(precedes(s[n].0, k));
    }
}

/// A key has a value exactly when some entry has that key.
pub proof fn lookup_finds_the_entry<T>(s: Seq<(Seq<char>, T)>, i: int)
    requires
        in_order(s),
        0 <= i < s.len(),
    ensures
        lookup(s, s[i].0) == Some(s[i].1),
        slot(s, s[i].0) == i,
{
    let k = s[i].0;
    lemma_precedes_irreflexive(k);
    assert forall|j: int| 0 <= j < i implies precedes(#[trigger] s[j].0, k) by {
        assert(precedes(s[j].0, s[i].0));
    }
    lemma_slot_unique(s, k, i);
}

/// Setting a key keeps the order of the keys.
pub proof fn store_keeps_order<T>(s: Seq<(Seq<char>, T)>, k: Seq<char>, v: T)
    requires
        in_order(s),
    ensures
        in_order(store(s, k, v)),
{
    let n = slot(s, k);
    lemma_slot(s, k);
    let t = store(s, k, v);
    if holds(s, k) {
        assert forall|i: int, j: int| 0 <= i < j < t.len() implies precedes(#[trigger] t[i].0, #[trigger] t[j].0) by {
            assert(t[i].0 == s[i].0 && t[j].0 == s[j].0);
            assert(precedes(s[i].0, s[j].0));
        }
    } else {
        assert forall|i: int, j: int| 0 <= i < j < t.len() implies precedes(#[trigger] t[i].0, #[trigger] t[j].0) by {
            if n < s.len() {
                lemma_precedes_total(s[n].0, k);
            }
            if j < n {
                assert(precedes(s[i].0, s[j].0));
            } else if j == n {
                assert(precedes(s[i].0, k));
            } else {
                let b = s[j - 1].0;
                if n < j - 1 {
                    assert(precedes(s[n].0, s[j - 1].0));
                    lemma_precedes_transitive(k, s[n].0, b);
                }
                assert(precedes(k, b));
                if i < n {
                    lemma_precedes_transitive(s[i].0, k, b);
                } else if i > n {
                    assert(precedes(s[i - 1].0, s[j - 1].0));
                }
            }
        }
    }
}

/// Reading after setting a key: that key has the new value, every other key its old one.
pub proof fn lookup_after_store<T>(s: Seq<(Seq<char>, T)>, k: Seq<char>, v: T, other: Seq<char>)
    requires
        in_order(s),
    ensures
        lookup(store(s, k, v), k) == Some(v),
        other != k ==> lookup(store(s, k, v), other) == lookup(s, other),
{
    let t = store(s, k, v);
    let n = slot(s, k);
    lemma_slot(s, k);
    store_keeps_order(s, k, v);
    assert(t[n] == (k, v));
    lookup_finds_the_entry(t, n);
    if other != k {
        lemma_slot(s, other);
        lemma_slot(t, other);
        if holds(s, other) {
            let i = slot(s, other);
            let j = if holds(s, k) || i < n {
                i
            } else {
                i + 1
            };
            assert(t[j] == s[i]);
            lookup_finds_the_entry(t, j);
        } else if holds(t, other) {
            let j = slot(t, other);
            let i = if holds(s, k) || j < n {
                j
            } else {
                j - 1
            };
            assert(t[j] == s[i]);
            lookup_finds_the_entry(s, i);
        }
    }
}

/// A map from strings to values, walked in key order. The value of a key stands at its place.
#[derive(Debug)]
pub struct SortedMap<V> {
    keys: Vec<String>,
    values: Vec<V>,
}

/// The keys are in strictly increasing order.
spec fn rising_keys(keys: Seq<String>) -> bool {
    forall|i: int, j: int| 0 <= i < j < keys.len() ==> precedes((#[trigger] keys[i])@, (#[trigger] keys[j])@)
}

impl<V> SortedMap<V> {
    #[verifier::type_invariant]
    spec fn orderly(self) -> bool {
        rising_keys(self.keys@) && self.keys@.len() == self.values@.len()
    }
}

impl<V: DeepView> View for SortedMap<V> {
    type V = Seq<(Seq<char>, V::V)>;

    closed spec fn view(&self) -> Seq<(Seq<char>, V::V)> {
        Seq::new(self.keys@.len(), |i: int| (self.keys@[i]@, self.values@[i].deep_view()))
    }
}

impl<V: DeepView> DeepView for SortedMap<V> {
    type V = Seq<(Seq<char>, V::V)>;

    open spec fn deep_view(&self) -> Seq<(Seq<char>, V::V)> {
        self@
    }
}

/// Copies of some keys.
fn copied(keys: &Vec<String>) -> (r: Vec<String>)
    ensures
        r@.len() == keys@.len(),
        forall|i: int| 0 <= i < r@.len() ==> (#[trigger] r@[i])@ == keys@[i]@,
{
    let mut out: Vec<String> = Vec::new();
    let mut i: usize = 0;
    while i < keys.len()
        invariant
            i <= keys@.len(),
            out@.len() == i,
            forall|j: int| 0 <= j < i ==> (#[trigger] out@[j])@ == keys@[j]@,
        decreases keys@.len() - i,
    {
        out.push(keys[i].clone());
        i = i + 1;
    }
    out
}

proof fn lemma_copied(from: Seq<String>, to: Seq<String>)
    requires
        rising_keys(from),
        to.len() == from.len(),
        forall|i: int| 0 <= i < to.len() ==> (#[trigger] to[i])@ == from[i]@,
    ensures
        rising_keys(to),
{
    assert forall|i: int, j: int| 0 <= i < j < to.len() implies precedes(
        (#[trigger] to[i])@,
        (#[trigger] to[j])@,
    ) by {
        assert(precedes(from[i]@, from[j]@));
    }
}

impl<V: Clone> Clone for SortedMap<V> {
    fn clone(&self) -> (r: Self) {
        proof {
            use_type_invariant(self);
        }
        let keys = copied(&self.keys);
        proof {
            lemma_copied(self.keys@, keys@);
        }
        SortedMap { keys, values: self.values.clone() }
    }
}

impl<V: Duplicate> Duplicate for SortedMap<V> {
    fn duplicate(&self) -> (r: Self) {
        proof {
            use_type_invariant(self);
        }
        let keys = copied(&self.keys);
        proof {
            lemma_copied(self.keys@, keys@);
        }
        let values = self.values.duplicate();
        proof {
            assert(values.deep_view().len() == self.values.deep_view().len());
        }
        let r = SortedMap { keys, values };
        assert forall|i: int| 0 <= i < r.values@.len() implies (#[trigger] r.values@[i]).deep_view()
            == self.values@[i].deep_view() by {
            assert(r.values.deep_view()[i] == self.values.deep_view()[i]);
        }
        assert(r@ =~= self@);
        r
    }
}

impl<V: DeepView> SortedMap<V> {
    pub fn new() -> (r: Self)
        ensures
            r@ == Seq::<(Seq<char>, V::V)>::empty(),
            in_order(r@),
    {
        let r = SortedMap { keys: Vec::new(), values: Vec::new() };
        assert(r@ =~= Seq::<(Seq<char>, V::V)>::empty());
        r
    }

    /// The number of keys; no key occurs twice.
    pub fn len(&self) -> (n: usize)
        ensures
            n == self@.len(),
            in_order(self@),
    {
        proof {
            use_type_invariant(self);
        }
        self.keys.len()
    }

    pub fn is_empty(&self) -> (r: bool)
        ensures
            r == (self@.len() == 0),
    {
        self.keys.len() == 0
    }

    pub fn key(&self, i: usize) -> (k: &String)
        requires
            i < self@.len(),
        ensures
            k@ == self@[i as int].0,
    {
        &self.keys[i]
    }

    pub fn value(&self, i: usize) -> (v: &V)
        requires
            i < self@.len(),
        ensures
            v.deep_view() == self@[i as int].1,
    {
        proof {
            use_type_invariant(self);
        }
        &self.values[i]
    }

    /// The place of a key, and whether the key is there.
    pub fn place(&self, k: &str) -> (r: (usize, bool))
        ensures
            r.0 == slot(self@, k@),
            r.0 <= self@.len(),
            r.1 == holds(self@, k@),
    {
        let mut i: usize = 0;
        while i < self.keys.len() && str_precedes(self.keys[i].as_str(), k)
            invariant
                i <= self@.len(),
                self@.len() == self.keys@.len(),
                forall|j: int| 0 <= j < i ==> precedes(#[trigger] self@[j].0, k@),
            decreases self.keys.len() - i,
        {
            assert(self@[i as int].0 == self.keys@[i as int]@);
            i = i + 1;
        }
        proof {
            if i < self@.len() {
                assert(self@[i as int].0 == self.keys@[i as int]@);
            }
            lemma_slot_unique(self@, k@, i as int);
        }
        let there: bool = i < self.keys.len() && str_same(self.keys[i].as_str(), k);
        (i, there)
    }

    pub fn get(&self, k: &str) -> (r: Option<&V>)
        ensures
            match r {
                Some(v) => lookup(self@, k@) == Some(v.deep_view()),
                None => lookup(self@, k@) is None,
            },
    {
        let (i, there): (usize, bool) = self.place(k);
        if there {
            Some(self.value(i))
        } else {
            None
        }
    }

    pub fn contains_key(&self, k: &str) -> (r: bool)
        ensures
            r == (lookup(self@, k@) is Some),
    {
        self.place(k).1
    }

    /// Sets the value of a key.
    pub fn put(&mut self, k: String, v: V)
        ensures
            final(self)@ == store(old(self)@, k@, v.deep_view()),
            in_order(old(self)@),
            in_order(final(self)@),
    {
        let (i, there): (usize, bool) = self.place(k.as_str());
        let ghost before = self@;
        let ghost key = k@;
        let ghost value = v.deep_view();
        proof {
            use_type_invariant(&*self);
            assert(in_order(before));
            store_keeps_order(before, key, value);
        }
        let mut fresh = SortedMap { keys: Vec::new(), values: Vec::new() };
        std::mem::swap(&mut fresh, self);
        let SortedMap { keys, values } = fresh;
        let mut keys = keys;
        let mut values = values;
        let ghost old_keys = keys@;
        if there {
            values.set(i, v);
        } else {
            keys.insert(i, k);
            values.insert(i, v);
        }
        proof {
            let t = store(before, key, value);
            assert forall|n: int| 0 <= n < keys@.len() implies t[n].0 == (#[trigger] keys@[n])@ by {}
            assert forall|n: int, m: int| 0 <= n < m < keys@.len() implies precedes(
                (#[trigger] keys@[n])@,
                (#[trigger] keys@[m])@,
            ) by {
                assert(precedes(t[n].0, t[m].0));
            }
        }
        *self = SortedMap { keys, values };
        assert(self@ =~= store(before, key, value));
    }

    /// A map with the same keys and other values.
    pub fn with_values<W: DeepView>(&self, values: Vec<W>) -> (r: SortedMap<W>)
        requires
            values@.len() == self@.len(),
        ensures
            r@ == Seq::new(self@.len(), |i: int| (self@[i].0, values@[i].deep_view())),
    {
        proof {
            use_type_invariant(self);
        }
        let keys = copied(&self.keys);
        proof {
            lemma_copied(self.keys@, keys@);
        }
        let r = SortedMap { keys, values };
        assert(r@ =~= Seq::new(self@.len(), |i: int| (self@[i].0, values@[i].deep_view())));
        r
    }

    /// The value at a place, for changing it there.
    pub fn value_mut(&mut self, i: usize) -> (v: &mut V)
        requires
            i < old(self)@.len(),
        ensures
            v.deep_view() == old(self)@[i as int].1,
            final(self)@ == old(self)@.update(i as int, (old(self)@[i as int].0, final(v).deep_view())),
    {
        proof {
            use_type_invariant(&*self);
        }
        &mut self.values[i]
    }
}

} // verus!
