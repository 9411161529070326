//! Numbering values anew in the order in which they are met, and a hash of
//! a collection that does not depend on the order of its items.

use crate::assoc::ListMap;
use std::collections::hash_map::DefaultHasher;
use vstd::arithmetic::div_mod::{lemma_add_mod_noop, lemma_small_mod};
use vstd::prelude::*;
use vstd::std_specs::hash::DefaultHasherAdditionalSpecFns;

verus! {

/// Gives numbers new numbers: the first number that is met gets the base
/// value, the next one the value after it, and so on. A number that was met
/// before keeps the number it was given.
pub struct Reindexer {
    mapper: ListMap<u32, u32>,
    source: u32,
}

impl Reindexer {
    /// The invariant of the numbering: every new number lies below the next
    /// one to be given.
    pub closed spec fn wf(&self) -> bool {
        &&& self.mapper.wf()
        &&& forall|k: u32| self.mapper@.dom().contains(k) ==> #[trigger] self.mapper@[k] < self.source
    }

    /// Every new number that was given lies below the next one to be given.
    pub proof fn lemma_below_source(&self, k: u32)
        requires
            self.wf(),
            self@.dom().contains(k),
        ensures
            self@[k] < self.source(),
    {
    }

    /// The numbers that were met, each with its new number.
    pub closed spec fn view(&self) -> Map<u32, u32> {
        self.mapper@
    }

    /// The number that the next new number gets.
    pub closed spec fn source(&self) -> u32 {
        self.source
    }

    /// A numbering that has met no number and starts with `base_val`.
    pub fn new(base_val: u32) -> (r: Self)
        ensures
            r.wf(),
            r@ == Map::<u32, u32>::empty(),
            r.source() == base_val,
    {
        Reindexer { mapper: ListMap::new(), source: base_val }
    }

    /// The new number of `index`: the one it was given before, or else the
    /// next one.
    pub fn reindex(&mut self, index: u32) -> (new: u32)
        requires
            old(self).wf(),
            !old(self)@.dom().contains(index) ==> old(self).source() < u32::MAX,
        ensures
            final(self).wf(),
            old(self)@.dom().contains(index) ==> new == old(self)@[index] && *final(self) == *old(
                self,
            ),
            !old(self)@.dom().contains(index) ==> new == old(self).source() && final(self)@ == old(
                self,
            )@.insert(index, new) && final(self).source() == old(self).source() + 1,
    {
        match self.mapper.get(&index) {
            Some(n) => *n,
            None => {
                let entry = self.source;
                self.mapper.insert(index, entry);
                self.source = entry + 1;
                entry
            },
        }
    }
}

/// The sum of the numbers.
pub open spec fn total(hashes: Seq<u64>) -> int
    decreases hashes.len(),
{
    if hashes.len() == 0 {
        0
    } else {
        total(hashes.drop_last()) + hashes.last()
    }
}

/// What is left of a sum when it is cut down to 64 bits.
pub open spec fn wrapped(n: int) -> u64 {
    (n % 0x1_0000_0000_0000_0000) as u64
}

/// The sum of the numbers does not depend on their order.
pub proof fn lemma_total_is_order_independent(a: Seq<u64>, b: Seq<u64>)
    requires
        a.to_multiset() == b.to_multiset(),
    ensures
        total(a) == total(b),
    decreases a.len(),
{
    a.to_multiset_ensures();
    b.to_multiset_ensures();
    if a.len() == 0 {
        assert(b.len() == 0);
    } else {
        let x = a.last();
        let rest = a.drop_last();
        rest.to_multiset_ensures();
        assert(a == rest.push(x));
        assert(b.to_multiset().count(x) > 0);
        let i = choose|i: int| 0 <= i < b.len() && b[i] == x;
        let others = b.remove(i);
        assert(others.to_multiset() =~= rest.to_multiset());
        lemma_total_is_order_independent(rest, others);
        lemma_total_remove(b, i);
    }
}

/// The sum of the numbers is the sum of the others and the one at `i`.
proof fn lemma_total_remove(s: Seq<u64>, i: int)
    requires
        0 <= i < s.len(),
    ensures
        total(s) == total(s.remove(i)) + s[i],
    decreases s.len(),
{
    if i == s.len() - 1 {
        assert(s.remove(i) =~= s.drop_last());
    } else {
        lemma_total_remove(s.drop_last(), i);
        assert(s.remove(i).drop_last() =~= s.drop_last().remove(i));
        assert(s.remove(i).last() == s.last());
    }
}

/// The sum of the numbers, cut down to 64 bits.
pub fn order_independent_sum(hashes: &Vec<u64>) -> (r: u64)
    ensures
        r == wrapped(total(hashes@)),
{
    let mut acc: u64 = 0;
    let mut i: usize = 0;
    while i < hashes.len()
        invariant
            i <= hashes.len(),
            acc == wrapped(total(hashes@.take(i as int))),
        decreases hashes.len() - i,
    {
        let sum: u128 = acc as u128 + hashes[i] as u128;
        proof {
            let m = 0x1_0000_0000_0000_0000int;
            let before = total(hashes@.take(i as int));
            assert(hashes@.take(i + 1).drop_last() =~= hashes@.take(i as int));
            assert(total(hashes@.take(i + 1)) == before + hashes[i as int]);
            lemma_add_mod_noop(before, hashes[i as int] as int, m);
            lemma_small_mod(hashes[i as int] as nat, m as nat);
        }
        acc = (sum % 0x1_0000_0000_0000_0000u128) as u64;
        i = i + 1;
    }
    proof {
        assert(hashes@.take(hashes.len() as int) =~= hashes@);
    }
    acc
}

/// The hashes of the items.
pub open spec fn item_hashes(items: Seq<Vec<u8>>) -> Seq<u64> {
    Seq::new(items.len(), |i: int| DefaultHasher::spec_finish(seq![items[i]@]))
}

/// A hash of the items that does not depend on their order: the sum of
/// their hashes, cut down to 64 bits.
pub fn order_independent_hash(items: &Vec<Vec<u8>>) -> (r: u64)
    ensures
        r == wrapped(total(item_hashes(items@))),
{
    let mut hashes: Vec<u64> = Vec::new();
    let mut i: usize = 0;
    while i < items.len()
        invariant
            i <= items.len(),
            hashes.len() == i,
            forall|j: int| 0 <= j < i ==> hashes[j] == item_hashes(items@)[j],
        decreases items.len() - i,
    {
        hashes.push(crate::utils::hash_pls(items[i].as_slice()));
        i = i + 1;
    }
    proof {
        assert(hashes@ =~= item_hashes(items@));
    }
    order_independent_sum(&hashes)
}

} // verus!
