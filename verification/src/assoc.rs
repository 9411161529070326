//! A map that is kept as a list of its entries, for keys that can only be
//! compared.

use crate::algebra::Base;
use crate::global_location::GlobalLocation;
use vstd::prelude::*;

verus! {

impl View for GlobalLocation {
    type V = GlobalLocation;

    open spec fn view(&self) -> GlobalLocation {
        *self
    }
}

impl Base for GlobalLocation {
    fn same(&self, other: &Self) -> (r: bool) {
        self.id == other.id
    }

    fn duplicate(&self) -> (r: Self) {
        *self
    }
}

/// A map from keys to values. No two entries have keys of the same value.
pub struct ListMap<K, V> {
    entries: Vec<(K, V)>,
}

impl<K: Base, V> ListMap<K, V> {
    /// The entries of the map, in the order in which they are kept.
    pub closed spec fn entries(&self) -> Seq<(K, V)> {
        self.entries@
    }

    /// The invariant of the map: no two entries have keys of the same value.
    pub open spec fn wf(&self) -> bool {
        forall|i: int, j: int|
            0 <= i < j < self.entries().len() ==> (#[trigger] self.entries()[i]).0@ != (
            #[trigger] self.entries()[j]).0@
    }

    /// Whether the map has an entry for the key.
    pub open spec fn has(&self, k: K::V) -> bool {
        exists|i: int| 0 <= i < self.entries().len() && (#[trigger] self.entries()[i]).0@ == k
    }

    /// Position of the entry for the key.
    pub open spec fn index(&self, k: K::V) -> int {
        choose|i: int| 0 <= i < self.entries().len() && (#[trigger] self.entries()[i]).0@ == k
    }

    /// The value for the key.
    pub open spec fn value(&self, k: K::V) -> V {
        self.entries()[self.index(k)].1
    }

    /// The map as a mathematical map.
    pub open spec fn view(&self) -> Map<K::V, V> {
        Map::new(|k: K::V| self.has(k), |k: K::V| self.value(k))
    }

    /// The entry at a position is the entry for its key.
    pub proof fn lemma_entry(&self, i: int)
        requires
            self.wf(),
            0 <= i < self.entries().len(),
        ensures
            self.has(self.entries()[i].0@),
            self.index(self.entries()[i].0@) == i,
            self.value(self.entries()[i].0@) == self.entries()[i].1,
            self@.dom().contains(self.entries()[i].0@),
            self@[self.entries()[i].0@] == self.entries()[i].1,
    {
        let k = self.entries()[i].0@;
        let j = self.index(k);
        if i < j {
            assert(self.entries()[i].0@ != self.entries()[j].0@);
        }
        if j < i {
            assert(self.entries()[j].0@ != self.entries()[i].0@);
        }
    }

    /// A map without entries.
    pub fn new() -> (m: Self)
        ensures
            m.wf(),
            m.entries().len() == 0,
            m@ == Map::<K::V, V>::empty(),
    {
        let m = ListMap { entries: Vec::new() };
        proof {
            assert(m@ =~= Map::<K::V, V>::empty());
        }
        m
    }

    /// Number of entries.
    pub fn len(&self) -> (n: usize)
        ensures
            n == self.entries().len(),
    {
        self.entries.len()
    }

    /// The entries of the map.
    pub fn as_vec(&self) -> (v: &Vec<(K, V)>)
        ensures
            v@ == self.entries(),
    {
        &self.entries
    }

    /// Position of the entry for the key, if there is one.
    pub fn position(&self, k: &K) -> (r: Option<usize>)
        requires
            self.wf(),
        ensures
            r is Some == self.has(k@),
            r matches Some(i) ==> i < self.entries().len() && i == self.index(k@)
                && self.entries()[i as int].0@ == k@,
    {
        let mut i: usize = 0;
        while i < self.entries.len()
            invariant
                i <= self.entries.len(),
                self.wf(),
                forall|j: int| 0 <= j < i ==> (#[trigger] self.entries()[j]).0@ != k@,
            decreases self.entries.len() - i,
        {
            if self.entries[i].0.same(k) {
                proof {
                    self.lemma_entry(i as int);
                }
                return Some(i);
            }
            i = i + 1;
        }
        None
    }

    /// The value for the key, if there is one.
    pub fn get(&self, k: &K) -> (r: Option<&V>)
        requires
            self.wf(),
        ensures
            r is Some == self@.dom().contains(k@),
            r matches Some(v) ==> *v == self@[k@],
    {
        match self.position(k) {
            Some(i) => Some(&self.entries[i].1),
            None => None,
        }
    }

    /// Whether the map has an entry for the key.
    pub fn contains_key(&self, k: &K) -> (r: bool)
        requires
            self.wf(),
        ensures
            r == self@.dom().contains(k@),
    {
        self.position(k).is_some()
    }

    /// Appends an entry for a key that the map does not have.
    pub fn push_new(&mut self, k: K, v: V)
        requires
            old(self).wf(),
            !old(self).has(k@),
        ensures
            final(self).wf(),
            final(self).entries() == old(self).entries().push((k, v)),
    {
        let ghost before = self.entries();
        self.entries.push((k, v));
        proof {
            let now = self.entries();
            let n = before.len() as int;
            assert forall|a: int, b: int| 0 <= a < b < now.len() implies (#[trigger] now[a]).0@
                != (#[trigger] now[b]).0@ by {
                if b < n {
                    assert(before[a].0@ != before[b].0@);
                } else {
                    assert(now[a] == before[a]);
                }
            }
        }
    }

    /// Position of the entry for a key among the entries, if there is one.
    pub open spec fn find(entries: Seq<(K, V)>, k: K::V) -> Option<int> {
        if exists|i: int| 0 <= i < entries.len() && (#[trigger] entries[i]).0@ == k {
            Some(choose|i: int| 0 <= i < entries.len() && (#[trigger] entries[i]).0@ == k)
        } else {
            None
        }
    }

    /// Gives the key the value. The entry of a key that the map has stays
    /// where it is; the entry of a new key comes last.
    pub fn set(&mut self, k: K, v: V)
        requires
            old(self).wf(),
        ensures
            final(self).wf(),
            final(self).entries() == match Self::find(old(self).entries(), k@) {
                Some(i) => old(self).entries().update(i, (k, v)),
                None => old(self).entries().push((k, v)),
            },
            final(self)@ == old(self)@.insert(k@, v),
    {
        let ghost key = k@;
        let ghost before = self.entries();
        match self.position(&k) {
            Some(i) => {
                self.entries.set(i, (k, v));
                proof {
                    let now = self.entries();
                    assert forall|a: int, b: int| 0 <= a < b < now.len() implies (
                    #[trigger] now[a]).0@ != (#[trigger] now[b]).0@ by {
                        assert(now[a].0@ == before[a].0@);
                        assert(now[b].0@ == before[b].0@);
                        assert(before[a].0@ != before[b].0@);
                    }
                    assert forall|q: K::V| self.has(q) == (old(self).has(q) || q == key) by {
                        if self.has(q) {
                            let x = self.index(q);
                            assert(before[x].0@ == q);
                        }
                        if old(self).has(q) {
                            let x = old(self).index(q);
                            assert(now[x].0@ == q);
                        }
                        if q == key {
                            assert(now[i as int].0@ == q);
                        }
                    }
                    assert forall|q: K::V| self.has(q) implies self.value(q) == old(self)@.insert(
                        key,
                        v,
                    )[q] by {
                        let x = self.index(q);
                        self.lemma_entry(x);
                        old(self).lemma_entry(x);
                    }
                    assert(self@ =~= old(self)@.insert(key, v));
                }
            },
            None => {
                self.entries.push((k, v));
                proof {
                    let now = self.entries();
                    let n = before.len() as int;
                    assert forall|a: int, b: int| 0 <= a < b < now.len() implies (
                    #[trigger] now[a]).0@ != (#[trigger] now[b]).0@ by {
                        if b < n {
                            assert(before[a].0@ != before[b].0@);
                        } else {
                            assert(now[a] == before[a]);
                        }
                    }
                    assert forall|q: K::V| self.has(q) == (old(self).has(q) || q == key) by {
                        if self.has(q) {
                            let x = self.index(q);
                            if x < n {
                                assert(before[x].0@ == q);
                            }
                        }
                        if old(self).has(q) {
                            let x = old(self).index(q);
                            assert(now[x].0@ == q);
                        }
                        if q == key {
                            assert(now[n].0@ == q);
                        }
                    }
                    assert forall|q: K::V| self.has(q) implies self.value(q) == old(self)@.insert(
                        key,
                        v,
                    )[q] by {
                        let x = self.index(q);
                        self.lemma_entry(x);
                        if x < n {
                            old(self).lemma_entry(x);
                        }
                    }
                    assert(self@ =~= old(self)@.insert(key, v));
                }
            },
        }
    }

    /// Gives the key the value, and returns the value that the key had.
    pub fn insert(&mut self, k: K, v: V) -> (r: Option<V>)
        requires
            old(self).wf(),
        ensures
            final(self).wf(),
            final(self)@ == old(self)@.insert(k@, v),
            r == if old(self)@.dom().contains(k@) {
                Some(old(self)@[k@])
            } else {
                None
            },
    {
        let ghost key = k@;
        match self.position(&k) {
            Some(i) => {
                let old_entry = self.entries.swap_remove(i);
                let ghost mid = self.entries@;
                self.entries.push((k, v));
                proof {
                    let before = old(self).entries();
                    let now = self.entries();
                    let n = before.len() as int;
                    assert(now.len() == n);
                    assert forall|a: int, b: int| 0 <= a < b < now.len() implies (
                    #[trigger] now[a]).0@ != (#[trigger] now[b]).0@ by {
                        let src = |x: int|
                            if x == n - 1 {
                                i as int
                            } else if x == i {
                                n - 1
                            } else {
                                x
                            };
                        assert(now[a].0@ == before[src(a)].0@);
                        assert(now[b].0@ == before[src(b)].0@);
                        if src(a) < src(b) {
                            assert(before[src(a)].0@ != before[src(b)].0@);
                        } else {
                            assert(before[src(b)].0@ != before[src(a)].0@);
                        }
                    }
                    assert forall|q: K::V| self.has(q) == (old(self).has(q) || q == key) by {
                        if self.has(q) {
                            let x = self.index(q);
                            if x == n - 1 {
                            } else if x == i {
                                assert(before[n - 1].0@ == q);
                            } else {
                                assert(before[x].0@ == q);
                            }
                        }
                        if old(self).has(q) {
                            let x = old(self).index(q);
                            if x == i {
                                assert(now[n - 1].0@ == q);
                            } else if x == n - 1 {
                                assert(now[i as int].0@ == q);
                            } else {
                                assert(now[x].0@ == q);
                            }
                        }
                        if q == key {
                            assert(now[n - 1].0@ == q);
                        }
                    }
                    assert forall|q: K::V| self.has(q) implies self.value(q) == old(self)@.insert(
                        key,
                        v,
                    )[q] by {
                        let x = self.index(q);
                        self.lemma_entry(x);
                        if x == n - 1 {
                        } else if x == i {
                            old(self).lemma_entry(n - 1);
                        } else {
                            old(self).lemma_entry(x);
                        }
                    }
                    assert(self@ =~= old(self)@.insert(key, v));
                    old(self).lemma_entry(i as int);
                }
                Some(old_entry.1)
            },
            None => {
                self.entries.push((k, v));
                proof {
                    let before = old(self).entries();
                    let now = self.entries();
                    let n = before.len() as int;
                    assert forall|a: int, b: int| 0 <= a < b < now.len() implies (
                    #[trigger] now[a]).0@ != (#[trigger] now[b]).0@ by {
                        if b < n {
                            assert(before[a].0@ != before[b].0@);
                        } else {
                            assert(now[a] == before[a]);
                        }
                    }
                    assert forall|q: K::V| self.has(q) == (old(self).has(q) || q == key) by {
                        if self.has(q) {
                            let x = self.index(q);
                            if x < n {
                                assert(before[x].0@ == q);
                            }
                        }
                        if old(self).has(q) {
                            let x = old(self).index(q);
                            assert(now[x].0@ == q);
                        }
                        if q == key {
                            assert(now[n].0@ == q);
                        }
                    }
                    assert forall|q: K::V| self.has(q) implies self.value(q) == old(self)@.insert(
                        key,
                        v,
                    )[q] by {
                        let x = self.index(q);
                        self.lemma_entry(x);
                        if x < n {
                            old(self).lemma_entry(x);
                        }
                    }
                    assert(self@ =~= old(self)@.insert(key, v));
                }
                None
            },
        }
    }
}

/// The pairs with the key given the value: in place if the key is among
/// the pairs, and else as a last pair.
pub open spec fn seq_set<K, V>(s: Seq<(K, V)>, k: K, v: V) -> Seq<(K, V)> {
    if exists|i: int| 0 <= i < s.len() && (#[trigger] s[i]).0 == k {
        s.update(choose|i: int| 0 <= i < s.len() && (#[trigger] s[i]).0 == k, (k, v))
    } else {
        s.push((k, v))
    }
}

/// The value that the pairs have for the key.
pub open spec fn seq_get<K, V>(s: Seq<(K, V)>, k: K) -> Option<V> {
    if exists|i: int| 0 <= i < s.len() && (#[trigger] s[i]).0 == k {
        Some(s[choose|i: int| 0 <= i < s.len() && (#[trigger] s[i]).0 == k].1)
    } else {
        None
    }
}

/// The value that the pairs have for a key is the value of a pair with the
/// key.
pub proof fn lemma_seq_get<K, V>(s: Seq<(K, V)>, k: K)
    ensures
        match seq_get(s, k) {
            Some(v) => exists|i: int| 0 <= i < s.len() && #[trigger] s[i] == (k, v),
            None => forall|i: int| 0 <= i < s.len() ==> (#[trigger] s[i]).0 != k,
        },
{
    if exists|i: int| 0 <= i < s.len() && (#[trigger] s[i]).0 == k {
        let i = choose|i: int| 0 <= i < s.len() && (#[trigger] s[i]).0 == k;
        assert(s[i] == (k, s[i].1));
    }
}

/// Whether no two pairs have the same key.
pub open spec fn distinct_keys<K, V>(s: Seq<(K, V)>) -> bool {
    forall|i: int, j: int| 0 <= i < j < s.len() ==> (#[trigger] s[i]).0 != (#[trigger] s[j]).0
}

/// The pairs with keys and values seen through two functions.
pub open spec fn mapped<K, V, L, W>(
    entries: Seq<(K, V)>,
    kf: spec_fn(K) -> L,
    vf: spec_fn(V) -> W,
) -> Seq<(L, W)> {
    Seq::new(entries.len(), |i: int| (kf(entries[i].0), vf(entries[i].1)))
}

/// Setting the value of a key in a list of entries is setting it in the
/// pairs that the entries are seen as, if the entries are seen with distinct
/// keys.
pub proof fn lemma_mapped_set<K, V, L, W>(
    entries: Seq<(K, V)>,
    after: Seq<(K, V)>,
    k: K,
    v: V,
    kf: spec_fn(K) -> L,
    vf: spec_fn(V) -> W,
)
    requires
        distinct_keys(mapped(entries, kf, vf)),
        (exists|i: int|
            0 <= i < entries.len() && kf((#[trigger] entries[i]).0) == kf(k) && after
                == entries.update(i, (k, v))) || ((forall|i: int|
            0 <= i < entries.len() ==> kf((#[trigger] entries[i]).0) != kf(k)) && after
            == entries.push((k, v))),
    ensures
        mapped(after, kf, vf) == seq_set(mapped(entries, kf, vf), kf(k), vf(v)),
{
    let m = mapped(entries, kf, vf);
    if exists|i: int|
        0 <= i < entries.len() && kf((#[trigger] entries[i]).0) == kf(k) && after == entries.update(
            i,
            (k, v),
        ) {
        let i = choose|i: int|
            0 <= i < entries.len() && kf((#[trigger] entries[i]).0) == kf(k) && after
                == entries.update(i, (k, v));
        assert(m[i].0 == kf(k));
        let x = choose|x: int| 0 <= x < m.len() && (#[trigger] m[x]).0 == kf(k);
        if x < i {
            assert(m[x].0 != m[i].0);
        }
        if i < x {
            assert(m[i].0 != m[x].0);
        }
        assert(mapped(after, kf, vf) =~= m.update(i, (kf(k), vf(v))));
    } else {
        if exists|x: int| 0 <= x < m.len() && (#[trigger] m[x]).0 == kf(k) {
            let x = choose|x: int| 0 <= x < m.len() && (#[trigger] m[x]).0 == kf(k);
            assert(kf(entries[x].0) == kf(k));
        }
        assert(mapped(after, kf, vf) =~= m.push((kf(k), vf(v))));
    }
}

} // verus!
