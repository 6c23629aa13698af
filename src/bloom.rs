//! An approximate-membership filter over 128 bits: an item sets, and is
//! then always found at, the two bits that two seeded hashes of it select.
//! Other items may be reported present too (false positives), never the
//! reverse.
use vstd::prelude::*;
use std::collections::hash_map::DefaultHasher;
use std::hash::{Hash, Hasher};

verus! {

/// The bit that `hash` selects, as a mask.
pub open spec fn bit_mask(hash: u64) -> u128 {
    1u128 << ((hash % 128) as u32)
}

/// Every bit set in `before` is still set in `after`.
pub open spec fn keeps_bits(before: u128, after: u128) -> bool {
    after & before == before
}

/// A filter whose state is a 128-bit set.
pub struct BloomFilter {
    bits: u128,
}

/// Relies on `std::hash::Hash::hash`: feeds `item` into `state`. Nothing
/// is promised of what it writes.
#[verifier::external_body]
fn feed<T: Hash>(item: &T, state: &mut DefaultHasher) {
    item.hash(state)
}

impl BloomFilter {
    /// The filter's bits.
    pub closed spec fn spec_bits(&self) -> u128 {
        self.bits
    }

    /// An empty filter: no bit set.
    pub fn new() -> (r: Self)
        ensures
            r.spec_bits() == 0,
    {
        BloomFilter { bits: 0 }
    }

    /// The filter's bits.
    pub fn bits(&self) -> (r: u128)
        ensures
            r == self.spec_bits(),
    {
        self.bits
    }

    /// Sets the bit that `hash` selects.
    pub fn insert_hash(&mut self, hash: u64)
        ensures
            final(self).spec_bits() == old(self).spec_bits() | bit_mask(hash),
    {
        let shift = (hash % 128) as u32;
        self.bits = self.bits | (1u128 << shift);
    }

    /// Whether the bit that `hash` selects is set.
    pub fn contains_hash(&self, hash: u64) -> (r: bool)
        ensures
            r == (self.spec_bits() & bit_mask(hash) != 0),
    {
        let shift = (hash % 128) as u32;
        self.bits & (1u128 << shift) != 0
    }

    /// Adds `item`: sets the bits of its two seeded hashes.
    pub fn insert<T: Hash>(&mut self, item: &T)
        ensures
            keeps_bits(old(self).spec_bits(), final(self).spec_bits()),
            exists|h0: u64, h1: u64|
                final(self).spec_bits() == old(self).spec_bits() | bit_mask(h0) | bit_mask(h1),
    {
        let ghost b0 = self.bits;
        let h0 = self.hash(item, 0);
        self.insert_hash(h0);
        let h1 = self.hash(item, 1);
        self.insert_hash(h1);
        proof {
            let b = self.bits;
            assert(b == b0 | bit_mask(h0) | bit_mask(h1));
            assert((b0 | bit_mask(h0) | bit_mask(h1)) & b0 == b0) by (bit_vector);
        }
    }

    /// Whether `item` may have been added: both bits of its seeded hashes
    /// are set. Other items may be reported too. That an added item is
    /// reported rests on its hashes coming out the same each time, which
    /// this contract cannot state for a generic item; at the level of hash
    /// values it is `lemma_inserted_hash_found`.
    pub fn contains<T: Hash>(&self, item: &T) -> (r: bool)
        ensures
            exists|h0: u64, h1: u64|
                r == (self.spec_bits() & bit_mask(h0) != 0 && self.spec_bits() & bit_mask(h1) != 0),
    {
        let h0 = self.hash(item, 0);
        if !self.contains_hash(h0) {
            return false;
        }
        let h1 = self.hash(item, 1);
        self.contains_hash(h1)
    }

    /// Forgets every item.
    pub fn clear(&mut self)
        ensures
            final(self).spec_bits() == 0,
    {
        self.bits = 0;
    }

    /// The hash of `item` under `seed`: the item and then the seed fed into
    /// a fresh `DefaultHasher`.
    fn hash<T: Hash>(&self, item: &T, seed: u64) -> u64 {
        let mut hasher = DefaultHasher::new();
        feed(item, &mut hasher);
        feed(&seed, &mut hasher);
        hasher.finish()
    }
}

impl Default for BloomFilter {
    /// An empty filter.
    fn default() -> (r: Self)
        ensures
            r.spec_bits() == 0,
    {
        Self::new()
    }
}

/// No false negatives: once the bit of `hash` is set, it is found in every
/// later state that keeps the bits set so far.
pub proof fn lemma_inserted_hash_found(before: u128, hash: u64, later: u128)
    requires
        keeps_bits(before | bit_mask(hash), later),
    ensures
        later & bit_mask(hash) != 0,
{
    let s = (hash % 128) as u32;
    assert(s < 128);
    assert(bit_mask(hash) == 1u128 << s);
    assert(later & (before | (1u128 << s)) == (before | (1u128 << s)) && s < 128 ==> later & (1u128
        << s) != 0) by (bit_vector);
}

/// Adding an item only ever sets bits.
pub proof fn lemma_insert_keeps_bits(before: u128, h0: u64, h1: u64)
    ensures
        keeps_bits(before, before | bit_mask(h0) | bit_mask(h1)),
{
    let a = bit_mask(h0);
    let b = bit_mask(h1);
    assert((before | a | b) & before == before) by (bit_vector);
}

} // verus!
