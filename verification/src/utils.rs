//! General-purpose helpers: hashes, the points of a body, and a sparse
//! matrix.

use crate::global_location::Location;
use std::collections::hash_map::DefaultHasher;
use std::hash::Hasher;
use vstd::prelude::*;
use vstd::std_specs::hash::DefaultHasherAdditionalSpecFns;

verus! {

/// The hash of the bytes.
pub fn hash_pls(bytes: &[u8]) -> (h: u64)
    ensures
        h == DefaultHasher::spec_finish(seq![bytes@]),
{
    let mut hasher = DefaultHasher::new();
    hasher.write(bytes);
    proof {
        assert(hasher@ =~= seq![bytes@]);
    }
    hasher.finish()
}

/// The hash of the bytes, cut down to six digits in base sixteen.
pub fn short_hash_pls(bytes: &[u8]) -> (h: u64)
    ensures
        h == DefaultHasher::spec_finish(seq![bytes@]) % 0x1_000_000,
        h < 0x1_000_000,
{
    hash_pls(bytes) % 0x1_000_000
}

/// The points of the first `n` blocks of a body: for each block one point
/// per statement and one for the terminator, in order.
pub open spec fn locations_below(statements: Seq<usize>, n: nat) -> Seq<Location>
    decreases n,
{
    if n == 0 {
        Seq::empty()
    } else {
        locations_below(statements, (n - 1) as nat) + Seq::new(
            (statements[n - 1] + 1) as nat,
            |j: int| Location { block: (n - 1) as u32, statement_index: j as usize },
        )
    }
}

/// Whether the point lies in a body whose blocks have the given numbers of
/// statements. The point after the last statement of a block is its
/// terminator.
pub open spec fn real_location(statements: Seq<usize>, l: Location) -> bool {
    l.block < statements.len() && l.statement_index <= statements[l.block as int]
}

/// Whether the point lies in the body.
pub fn is_real_location(statements: &Vec<usize>, l: Location) -> (r: bool)
    ensures
        r == real_location(statements@, l),
{
    (l.block as usize) < statements.len() && l.statement_index <= statements[l.block as usize]
}

/// All points of a body whose blocks have the given numbers of statements.
pub fn locations_of_body(statements: &Vec<usize>) -> (v: Vec<Location>)
    requires
        statements.len() <= u32::MAX,
    ensures
        v@ == locations_below(statements@, statements.len() as nat),
{
    let mut v: Vec<Location> = Vec::new();
    let mut i: usize = 0;
    while i < statements.len()
        invariant
            i <= statements.len(),
            statements.len() <= u32::MAX,
            v@ == locations_below(statements@, i as nat),
        decreases statements.len() - i,
    {
        let ghost before = v@;
        let n = statements[i];
        let mut j: usize = 0;
        loop
            invariant_except_break
                v@ == before + Seq::new(
                    j as nat,
                    |k: int| Location { block: i as u32, statement_index: k as usize },
                ),
            invariant
                j <= n,
                i < statements.len(),
                statements.len() <= u32::MAX,
                n == statements[i as int],
            ensures
                v@ == before + Seq::new(
                    (n + 1) as nat,
                    |k: int| Location { block: i as u32, statement_index: k as usize },
                ),
            decreases n - j,
        {
            let ghost sofar = v@;
            v.push(Location { block: i as u32, statement_index: j });
            proof {
                assert(v@ =~= before + Seq::new(
                    (j + 1) as nat,
                    |k: int| Location { block: i as u32, statement_index: k as usize },
                ));
            }
            if j == n {
                break ;
            }
            j = j + 1;
        }
        proof {
            assert(v@ =~= locations_below(statements@, (i + 1) as nat));
        }
        i = i + 1;
    }
    v
}

/// The elements of a sequence with one more element are those of the
/// sequence and the element.
pub proof fn lemma_push_to_set(s: Seq<u64>, v: u64)
    ensures
        s.push(v).to_set() == s.to_set().insert(v),
{
    let p = s.push(v);
    assert forall|x: u64| p.to_set().contains(x) == s.to_set().insert(v).contains(x) by {
        if p.contains(x) {
            let i = choose|i: int| 0 <= i < p.len() && p[i] == x;
            if i < s.len() {
                assert(s[i] == x);
            }
        }
        if s.contains(x) {
            let i = choose|i: int| 0 <= i < s.len() && s[i] == x;
            assert(p[i] == x);
        }
        if x == v {
            assert(p[s.len() as int] == v);
        }
    }
    assert(p.to_set() =~= s.to_set().insert(v));
}

/// A matrix of which most rows are empty: for each row that was touched,
/// the columns that are set in it.
pub struct SparseMatrix {
    keys: Vec<u64>,
    rows: Vec<Vec<u64>>,
}

impl SparseMatrix {
    /// The invariant of the matrix.
    pub closed spec fn wf(&self) -> bool {
        &&& self.keys.len() == self.rows.len()
        &&& self.keys@.no_duplicates()
    }

    /// Position of the row `k` among the rows that were touched.
    pub closed spec fn index_of(&self, k: u64) -> int {
        self.keys@.index_of(k)
    }

    /// The rows that were touched, each with its columns.
    pub closed spec fn view(&self) -> Map<u64, Set<u64>> {
        Map::new(|k: u64| self.keys@.contains(k), |k: u64| self.rows[self.keys@.index_of(k)]@.to_set())
    }

    /// The columns of the row `k`: none if the row was never touched.
    pub open spec fn spec_row(&self, k: u64) -> Set<u64> {
        if self@.dom().contains(k) {
            self@[k]
        } else {
            Set::empty()
        }
    }

    /// A matrix without rows.
    pub fn new() -> (m: Self)
        ensures
            m.wf(),
            m@ == Map::<u64, Set<u64>>::empty(),
    {
        let m = SparseMatrix { keys: Vec::new(), rows: Vec::new() };
        proof {
            assert(m@ =~= Map::<u64, Set<u64>>::empty());
        }
        m
    }

    /// Position of the row `k`, if it was touched.
    fn position(&self, k: u64) -> (r: Option<usize>)
        requires
            self.wf(),
        ensures
            r is Some == self@.dom().contains(k),
            r matches Some(i) ==> i < self.keys.len() && self.keys[i as int] == k && i
                == self.index_of(k),
    {
        let mut i: usize = 0;
        while i < self.keys.len()
            invariant
                i <= self.keys.len(),
                self.wf(),
                forall|j: int| 0 <= j < i ==> self.keys[j] != k,
            decreases self.keys.len() - i,
        {
            if self.keys[i] == k {
                proof {
                    assert(self.keys@.contains(k));
                    self.keys@.index_of_first_ensures(k);
                }
                return Some(i);
            }
            i = i + 1;
        }
        None
    }

    /// The rows that were touched, each with its columns.
    pub fn rows(&self) -> (r: (&Vec<u64>, &Vec<Vec<u64>>))
        requires
            self.wf(),
        ensures
            r.0.len() == r.1.len(),
            r.0@.no_duplicates(),
            r.0@.to_set() == self@.dom(),
            forall|i: int| 0 <= i < r.0.len() ==> (#[trigger] r.1[i])@.to_set() == self@[r.0[i]],
    {
        proof {
            assert(self.keys@.to_set() =~= self@.dom());
            assert forall|i: int| 0 <= i < self.keys.len() implies (#[trigger] self.rows[i])@.to_set()
                == self@[self.keys[i]] by {
                assert(self.keys@.contains(self.keys[i]));
                self.keys@.index_of_first_ensures(self.keys[i]);
            }
        }
        (&self.keys, &self.rows)
    }

    /// Whether the column `v` is set in the row `k`.
    pub fn contains(&self, k: u64, v: u64) -> (r: bool)
        requires
            self.wf(),
        ensures
            r == self.spec_row(k).contains(v),
    {
        match self.position(k) {
            Some(i) => {
                let row = &self.rows[i];
                let mut j: usize = 0;
                while j < row.len()
                    invariant
                        j <= row.len(),
                        self.spec_row(k) == row@.to_set(),
                        forall|c: int| 0 <= c < j ==> row[c] != v,
                    decreases row.len() - j,
                {
                    if row[j] == v {
                        proof {
                            assert(row@.contains(row@[j as int]));
                        }
                        return true;
                    }
                    j = j + 1;
                }
                false
            },
            None => false,
        }
    }

    /// The columns of the row `k`.
    pub fn row(&self, k: u64) -> (r: Vec<u64>)
        requires
            self.wf(),
        ensures
            r@.to_set() == self.spec_row(k),
    {
        let mut r: Vec<u64> = Vec::new();
        match self.position(k) {
            Some(i) => {
                let row = &self.rows[i];
                let mut j: usize = 0;
                while j < row.len()
                    invariant
                        j <= row.len(),
                        r@ == row@.take(j as int),
                    decreases row.len() - j,
                {
                    r.push(row[j]);
                    proof {
                        assert(row@.take(j as int + 1) =~= row@.take(j as int).push(row@[j as int]));
                    }
                    j = j + 1;
                }
                proof {
                    assert(row@.take(row.len() as int) =~= row@);
                }
            },
            None => {
                proof {
                    assert(r@.to_set() =~= Set::<u64>::empty());
                }
            },
        }
        r
    }

    /// Whether a column is set in the row `k`.
    pub fn has(&self, k: u64) -> (r: bool)
        requires
            self.wf(),
        ensures
            r == (self.spec_row(k) != Set::<u64>::empty()),
    {
        match self.position(k) {
            Some(i) => {
                let n = self.rows[i].len();
                proof {
                    if n > 0 {
                        assert(self.rows[i as int]@.to_set().contains(self.rows[i as int]@[0]));
                    } else {
                        assert(self.rows[i as int]@.to_set() =~= Set::<u64>::empty());
                    }
                }
                n > 0
            },
            None => false,
        }
    }

    /// Position of the row `k`, which is made if it was not touched.
    pub fn row_mut(&mut self, k: u64) -> (i: usize)
        requires
            old(self).wf(),
        ensures
            final(self).wf(),
            final(self).spec_row(k) == old(self).spec_row(k),
            final(self)@ == old(self)@.insert(k, old(self).spec_row(k)),
            final(self)@.dom().contains(k),
            i == final(self).index_of(k),
    {
        match self.position(k) {
            Some(i) => {
                proof {
                    assert(self@ =~= old(self)@.insert(k, old(self).spec_row(k)));
                }
                i
            },
            None => {
                let i = self.keys.len();
                self.keys.push(k);
                self.rows.push(Vec::new());
                proof {
                    assert(self.keys@.contains(k)) by {
                        assert(self.keys@[i as int] == k);
                    }
                    self.keys@.index_of_first_ensures(k);
                    assert(self.rows[i as int]@.to_set() =~= Set::<u64>::empty());
                    assert forall|q: u64| #[trigger] self@.dom().contains(q) == old(self)@.insert(
                        k,
                        old(self).spec_row(k),
                    ).dom().contains(q) by {
                        if old(self).keys@.contains(q) {
                            let j = old(self).keys@.index_of(q);
                            old(self).keys@.index_of_first_ensures(q);
                            assert(self.keys@[j] == q);
                        }
                        if self.keys@.contains(q) && q != k {
                            let j = self.keys@.index_of(q);
                            self.keys@.index_of_first_ensures(q);
                            assert(old(self).keys@[j] == q);
                        }
                    }
                    assert forall|q: u64| #[trigger] self@.dom().contains(q) implies self@[q]
                        == old(self)@.insert(k, old(self).spec_row(k))[q] by {
                        if q != k {
                            let j = self.keys@.index_of(q);
                            self.keys@.index_of_first_ensures(q);
                            assert(old(self).keys@[j] == q);
                            old(self).keys@.index_of_first_ensures(q);
                        }
                    }
                    assert(self@ =~= old(self)@.insert(k, old(self).spec_row(k)));
                }
                i
            },
        }
    }

    /// Sets the column `v` in the row `k`, and says whether it was not set
    /// before.
    pub fn set(&mut self, k: u64, v: u64) -> (changed: bool)
        requires
            old(self).wf(),
        ensures
            final(self).wf(),
            changed == !old(self).spec_row(k).contains(v),
            final(self)@ == old(self)@.insert(k, old(self).spec_row(k).insert(v)),
    {
        if self.contains(k, v) {
            proof {
                assert(old(self).spec_row(k).insert(v) =~= old(self).spec_row(k));
                assert(self@ =~= old(self)@.insert(k, old(self).spec_row(k)));
            }
            return false;
        }
        let i = self.row_mut(k);
        let ghost mid = *self;
        let mut row: Vec<u64> = Vec::new();
        proof {
            self.keys@.index_of_first_ensures(k);
        }
        let old_row = &self.rows[i];
        let mut j: usize = 0;
        while j < old_row.len()
            invariant
                j <= old_row.len(),
                row@ == old_row@.take(j as int),
            decreases old_row.len() - j,
        {
            row.push(old_row[j]);
            proof {
                assert(old_row@.take(j as int + 1) =~= old_row@.take(j as int).push(
                    old_row@[j as int],
                ));
            }
            j = j + 1;
        }
        proof {
            assert(old_row@.take(old_row.len() as int) =~= old_row@);
        }
        row.push(v);
        proof {
            lemma_push_to_set(old_row@, v);
            assert(old_row@.to_set() == mid.spec_row(k));
            assert(row@.to_set() =~= mid.spec_row(k).insert(v));
        }
        self.rows.set(i, row);
        proof {
            assert forall|q: u64| #[trigger] self@.dom().contains(q) implies self@[q]
                == old(self)@.insert(k, old(self).spec_row(k).insert(v))[q] by {
                self.keys@.index_of_first_ensures(q);
                if q != k {
                    assert(mid@[q] == self@[q]);
                }
            }
            assert(self@ =~= old(self)@.insert(k, old(self).spec_row(k).insert(v)));
        }
        true
    }

    /// Sets in the row `k` the columns of `row`, and says whether one of
    /// them was not set before.
    pub fn union_row(&mut self, k: u64, row: &Vec<u64>) -> (changed: bool)
        requires
            old(self).wf(),
        ensures
            final(self).wf(),
            changed == !row@.to_set().subset_of(old(self).spec_row(k)),
            row.len() > 0 ==> final(self)@ == old(self)@.insert(
                k,
                old(self).spec_row(k).union(row@.to_set()),
            ),
            row.len() == 0 ==> final(self)@ == old(self)@,
    {
        let mut changed = false;
        let mut j: usize = 0;
        proof {
            assert(row@.take(0).to_set() =~= Set::<u64>::empty());
        }
        while j < row.len()
            invariant
                j <= row.len(),
                self.wf(),
                changed == !row@.take(j as int).to_set().subset_of(old(self).spec_row(k)),
                j > 0 ==> self@ == old(self)@.insert(
                    k,
                    old(self).spec_row(k).union(row@.take(j as int).to_set()),
                ),
                j == 0 ==> self@ == old(self)@,
            decreases row.len() - j,
        {
            let ghost before = *self;
            let fresh = self.set(k, row[j]);
            proof {
                let sofar = row@.take(j as int).to_set();
                let next = row@.take(j as int + 1).to_set();
                assert(row@.take(j as int + 1) =~= row@.take(j as int).push(row@[j as int]));
                lemma_push_to_set(row@.take(j as int), row@[j as int]);
                if j == 0 {
                    assert(sofar =~= Set::<u64>::empty());
                    assert(old(self).spec_row(k).union(sofar) =~= old(self).spec_row(k));
                }
                assert(before.spec_row(k) == old(self).spec_row(k).union(sofar));
                assert(before.spec_row(k).insert(row@[j as int]) =~= old(self).spec_row(k).union(
                    next,
                ));
                assert(before@.insert(k, old(self).spec_row(k).union(next)) =~= old(self)@.insert(
                    k,
                    old(self).spec_row(k).union(next),
                ));
                assert(self@ =~= old(self)@.insert(k, old(self).spec_row(k).union(next)));
                if fresh {
                    assert(next.contains(row@[j as int]));
                }
            }
            changed = changed || fresh;
            j = j + 1;
        }
        proof {
            assert(row@.take(row.len() as int) =~= row@);
        }
        changed
    }
}

/// What a cache knows of the value for one key.
pub enum CacheEntry<Out> {
    /// Nobody has asked for the value.
    NotStarted,
    /// The value is being computed.
    InProgress,
    /// The value.
    Done(Out),
}

/// A cache of values that are computed once, for keys that are numbered
/// from 0. While the value for a key is being computed the key counts as in
/// progress, so that a computation that asks for its own key again learns of
/// the recursion instead of running for ever.
pub struct RecursionBreakingCache<Out> {
    entries: Vec<CacheEntry<Out>>,
}

impl<Out> RecursionBreakingCache<Out> {
    /// The entries of the cache, by key.
    pub closed spec fn view(&self) -> Seq<CacheEntry<Out>> {
        self.entries@
    }

    /// A cache for the keys below `n`, none of which was asked for.
    pub fn new(n: usize) -> (r: Self)
        ensures
            r@.len() == n,
            forall|i: int| 0 <= i < n ==> r@[i] is NotStarted,
    {
        let mut entries: Vec<CacheEntry<Out>> = Vec::new();
        while entries.len() < n
            invariant
                entries.len() <= n,
                forall|i: int| 0 <= i < entries.len() ==> entries[i] is NotStarted,
            decreases n - entries.len(),
        {
            entries.push(CacheEntry::NotStarted);
        }
        RecursionBreakingCache { entries }
    }

    /// Number of keys of the cache.
    pub fn len(&self) -> (n: usize)
        ensures
            n == self@.len(),
    {
        self.entries.len()
    }

    /// Number of started keys among the first `n`.
    pub open spec fn started(entries: Seq<CacheEntry<Out>>, n: nat) -> nat
        decreases n,
    {
        if n == 0 {
            0
        } else {
            Self::started(entries, (n - 1) as nat) + if entries[n - 1] is NotStarted {
                0nat
            } else {
                1nat
            }
        }
    }

    /// Number of keys whose value was asked for.
    pub fn size(&self) -> (n: usize)
        ensures
            n == Self::started(self@, self@.len()),
    {
        let mut n: usize = 0;
        let mut i: usize = 0;
        while i < self.entries.len()
            invariant
                i <= self.entries.len(),
                n == Self::started(self@, i as nat),
                n <= i,
            decreases self.entries.len() - i,
        {
            match &self.entries[i] {
                CacheEntry::NotStarted => {},
                _ => {
                    n = n + 1;
                },
            }
            i = i + 1;
        }
        n
    }

    /// The value for the key, if it is there.
    pub fn get(&self, key: usize) -> (r: Option<&Out>)
        ensures
            r is Some == (key < self@.len() && self@[key as int] is Done),
            r matches Some(v) ==> *v == self@[key as int]->Done_0,
    {
        if key >= self.entries.len() {
            return None;
        }
        match &self.entries[key] {
            CacheEntry::Done(v) => Some(v),
            _ => None,
        }
    }

    /// Marks the key as in progress if nobody has asked for its value, and
    /// says whether it did.
    pub fn start(&mut self, key: usize) -> (r: bool)
        requires
            key < old(self)@.len(),
        ensures
            r == old(self)@[key as int] is NotStarted,
            r ==> final(self)@ == old(self)@.update(key as int, CacheEntry::InProgress),
            !r ==> final(self)@ == old(self)@,
    {
        match &self.entries[key] {
            CacheEntry::NotStarted => {},
            _ => {
                return false;
            },
        }
        self.entries.set(key, CacheEntry::InProgress);
        true
    }

    /// Forgets that the key was started.
    pub fn reset(&mut self, key: usize)
        requires
            key < old(self)@.len(),
        ensures
            final(self)@ == old(self)@.update(key as int, CacheEntry::NotStarted),
    {
        self.entries.set(key, CacheEntry::NotStarted);
    }

    /// Stores the value for the key.
    pub fn finish(&mut self, key: usize, value: Out)
        requires
            key < old(self)@.len(),
        ensures
            final(self)@ == old(self)@.update(key as int, CacheEntry::Done(value)),
    {
        self.entries.set(key, CacheEntry::Done(value));
    }
}

} // verus!
