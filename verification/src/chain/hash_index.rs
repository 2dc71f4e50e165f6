//! A map from block hashes to positions.

use std::collections::HashMap;
use vstd::bytes::u128_from_le_bytes;
use vstd::prelude::*;
use vstd::slice::slice_subrange;

verus! {

broadcast use vstd::std_specs::hash::group_hash_axioms;

/// A map from block hashes to positions in a list.
///
/// A hash is looked up by its first half, and then by its second half among
/// the hashes that share the first.
pub struct HashIndex {
    halves: HashMap<u128, HashMap<u128, usize>>,
}

/// The first half of a hash as a key.
spec fn first_key(hash: Seq<u8>) -> u128 {
    vstd::bytes::spec_u128_from_le_bytes(hash.subrange(0, 16))
}

/// The second half of a hash as a key.
spec fn second_key(hash: Seq<u8>) -> u128 {
    vstd::bytes::spec_u128_from_le_bytes(hash.subrange(16, 32))
}

/// The two keys of a hash determine it.
proof fn lemma_keys_determine_hash(a: Seq<u8>, b: Seq<u8>)
    requires
        a.len() == 32,
        b.len() == 32,
        first_key(a) == first_key(b),
        second_key(a) == second_key(b),
    ensures
        a == b,
{
    vstd::bytes::lemma_auto_spec_u128_to_from_le_bytes();
    let a0 = a.subrange(0, 16);
    let a1 = a.subrange(16, 32);
    let b0 = b.subrange(0, 16);
    let b1 = b.subrange(16, 32);
    assert(vstd::bytes::spec_u128_to_le_bytes(first_key(a)) == a0);
    assert(vstd::bytes::spec_u128_to_le_bytes(first_key(b)) == b0);
    assert(vstd::bytes::spec_u128_to_le_bytes(second_key(a)) == a1);
    assert(vstd::bytes::spec_u128_to_le_bytes(second_key(b)) == b1);
    assert(a =~= a0 + a1);
    assert(b =~= b0 + b1);
}

impl View for HashIndex {
    type V = Map<Seq<u8>, usize>;

    closed spec fn view(&self) -> Map<Seq<u8>, usize> {
        Map::new(
            |h: Seq<u8>|
                h.len() == 32 && self.halves@.contains_key(first_key(h))
                    && self.halves@[first_key(h)]@.contains_key(second_key(h)),
            |h: Seq<u8>| self.halves@[first_key(h)]@[second_key(h)],
        )
    }
}

/// The keys of a hash.
fn keys_of(hash: &[u8; 32]) -> (keys: (u128, u128))
    ensures
        keys.0 == first_key(hash@),
        keys.1 == second_key(hash@),
{
    let s = hash.as_slice();
    (u128_from_le_bytes(slice_subrange(s, 0, 16)), u128_from_le_bytes(slice_subrange(s, 16, 32)))
}

impl HashIndex {
    /// A map without entries.
    pub fn new() -> (index: Self)
        ensures
            index@ == Map::<Seq<u8>, usize>::empty(),
    {
        let index = HashIndex { halves: HashMap::new() };
        assert(index@ =~= Map::<Seq<u8>, usize>::empty());
        index
    }

    /// The position under `hash`, if there is one.
    pub fn get(&self, hash: &[u8; 32]) -> (position: Option<usize>)
        ensures
            position == (if self@.contains_key(hash@) {
                Some(self@[hash@])
            } else {
                None
            }),
    {
        let keys = keys_of(hash);
        match self.halves.get(&keys.0) {
            Some(seconds) => match seconds.get(&keys.1) {
                Some(position) => Some(*position),
                None => None,
            },
            None => None,
        }
    }

    /// Puts `position` under `hash`, in place of what was there.
    pub fn insert(&mut self, hash: &[u8; 32], position: usize)
        ensures
            final(self)@ == old(self)@.insert(hash@, position),
    {
        let keys = keys_of(hash);
        let mut seconds = match self.halves.remove(&keys.0) {
            Some(seconds) => seconds,
            None => HashMap::new(),
        };
        seconds.insert(keys.1, position);
        self.halves.insert(keys.0, seconds);
        proof {
            assert forall|h: Seq<u8>|
                (#[trigger] self@.contains_key(h) <==> old(self)@.insert(
                    hash@,
                    position,
                ).contains_key(h)) && (self@.contains_key(h) ==> self@[h] == old(self)@.insert(
                    hash@,
                    position,
                )[h]) by {
                if h.len() == 32 && first_key(h) == keys.0 && second_key(h) == keys.1 {
                    lemma_keys_determine_hash(h, hash@);
                }
            }
            assert(self@ =~= old(self)@.insert(hash@, position));
        }
    }
}

} // verus!
