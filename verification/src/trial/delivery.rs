//! The order in which the droplets of an epoch arrive.

use rand::SeedableRng;
use rand::seq::SliceRandom;
use vstd::prelude::*;

verus! {

/// The key that a generator is given for the number `state`.
pub uninterp spec fn chacha_key(state: u64) -> Seq<u8>;

/// What shuffling makes of `items` with the generator that has the key `key`
/// and stands at the word `word_pos` of its output, and where the generator
/// stands then.
pub uninterp spec fn shuffled(items: Seq<u64>, key: Seq<u8>, word_pos: u128) -> (Seq<u64>, u128);

/// `rand_chacha::ChaCha8Rng::seed_from_u64`: the key of the generator is a
/// function of the number.
#[verifier::external_body]
fn key_from_u64(state: u64) -> (key: [u8; 32])
    ensures
        key@ == chacha_key(state),
{
    rand_chacha::ChaCha8Rng::seed_from_u64(state).get_seed()
}

/// `rand::seq::SliceRandom::shuffle` with a `rand_chacha::ChaCha8Rng`: the
/// result has the same items, and it and the generator's new position are a
/// function of the items and of the generator's key and position, which are
/// all that its output depends on.
#[verifier::external_body]
fn shuffle(items: Vec<u64>, key: &[u8; 32], word_pos: u128) -> (r: (Vec<u64>, u128))
    ensures
        (r.0@, r.1) == shuffled(items@, key@, word_pos),
        r.0@.to_multiset() == items@.to_multiset(),
{
    let mut rng = rand_chacha::ChaCha8Rng::from_seed(*key);
    rng.set_word_pos(word_pos);
    let mut items = items;
    items.shuffle(&mut rng);
    (items, rng.get_word_pos())
}

/// The generator of a trial: a key, and a position in its output.
#[derive(Clone, Copy, Debug)]
pub struct TrialRng {
    /// The key.
    pub key: [u8; 32],
    /// The position, in words.
    pub word_pos: u128,
}

/// The numbers below `n`, in order.
pub open spec fn counting(n: nat) -> Seq<u64> {
    Seq::new(n, |i: int| i as u64)
}

impl TrialRng {
    /// The generator for a seed, at its start.
    pub fn new(seed: u64) -> (rng: Self)
        ensures
            rng.key@ == chacha_key(seed),
            rng.word_pos == 0,
    {
        TrialRng { key: key_from_u64(seed), word_pos: 0 }
    }

    /// The numbers of `max_droplets` droplets, in the order of their arrival.
    pub fn delivery_order(&mut self, max_droplets: usize) -> (order: Vec<u64>)
        ensures
            final(self).key == old(self).key,
            (order@, final(self).word_pos) == shuffled(
                counting(max_droplets as nat),
                old(self).key@,
                old(self).word_pos,
            ),
            order@.to_multiset() == counting(max_droplets as nat).to_multiset(),
            order@.len() == max_droplets,
    {
        let mut ids: Vec<u64> = Vec::new();
        for i in 0..max_droplets
            invariant
                ids@ == counting(i as nat),
        {
            ids.push(i as u64);
            assert(ids@ =~= counting((i + 1) as nat));
        }
        let r = shuffle(ids, &self.key, self.word_pos);
        proof {
            law_each_droplet_arrives_once(r.0@, max_droplets as nat);
        }
        self.word_pos = r.1;
        r.0
    }
}

/// Each droplet arrives once, and no other does.
pub proof fn law_each_droplet_arrives_once(order: Seq<u64>, n: nat)
    requires
        n <= u64::MAX,
        order.to_multiset() == counting(n).to_multiset(),
    ensures
        order.len() == n,
        order.no_duplicates(),
        forall|id: u64| #[trigger] order.contains(id) <==> id < n,
{
    broadcast use vstd::seq_lib::group_to_multiset_ensures;

    let all = counting(n);
    assert(order.to_multiset().len() == all.to_multiset().len());
    assert forall|id: u64| #[trigger] order.contains(id) <==> id < n by {
        if id < n {
            assert(all[id as int] == id);
            assert(all.contains(id));
        }
        assert(order.contains(id) <==> order.to_multiset().count(id) > 0);
        assert(all.contains(id) <==> all.to_multiset().count(id) > 0);
    }
    assert(all.no_duplicates());
    all.lemma_multiset_has_no_duplicates();
    order.lemma_multiset_has_no_duplicates_conv();
}

/// What is shuffled are the numbers from zero up, in their order.
pub proof fn law_droplets_are_counted_from_zero(n: nat, i: int)
    requires
        0 <= i < n <= u64::MAX,
    ensures
        counting(n).len() == n,
        counting(n)[i] == i,
{
}

} // verus!
