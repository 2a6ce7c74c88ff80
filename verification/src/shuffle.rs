//! The order in which repetitions are presented: shuffled, yet the same for
//! the same number of repetitions every time.

use vstd::prelude::*;
use rand::seq::SliceRandom;
use rand::SeedableRng;

verus! {

/// Where each item comes from when `len` items are shuffled by a generator
/// that was seeded with `seed`: the item at `i` afterwards is the one that
/// stood at `shuffled_order(seed, len)[i]` before.
pub uninterp spec fn shuffled_order(seed: Seq<u8>, len: nat) -> Seq<int>;

/// Whether `order` names each of the places `0` to `len - 1` once.
pub open spec fn is_arrangement(order: Seq<int>, len: nat) -> bool {
    &&& order.len() == len
    &&& forall|i: int| 0 <= i < len ==> 0 <= #[trigger] order[i] < len
    &&& forall|i: int, j: int| 0 <= i < j < len ==> #[trigger] order[i] != #[trigger] order[j]
}

/// `rows` taken in the order that `order` names.
pub open spec fn arranged<A>(rows: Seq<A>, order: Seq<int>) -> Seq<A> {
    Seq::new(rows.len(), |i: int| rows[order[i]])
}

/// The seed of the generator that shuffles the repetitions of a file.
pub open spec fn study_seed() -> Seq<u8> {
    Seq::new(32, |i: int| 42u8)
}

/// `rand_chacha::ChaCha8Rng::from_seed` and `SliceRandom::shuffle` of the
/// crate rand: shuffles `rows` in place with a generator that starts from
/// `seed`. The shuffle swaps items by their places alone, each place drawn
/// from the generator, so the contract names the order that it leads to by
/// the seed and the number of items, and says that it is a rearrangement.
#[verifier::external_body]
pub(crate) fn shuffle_with_seed<T>(rows: &mut Vec<T>, seed: [u8; 32])
    ensures
        final(rows)@ == arranged(old(rows)@, shuffled_order(seed@, old(rows)@.len())),
        is_arrangement(shuffled_order(seed@, old(rows)@.len()), old(rows)@.len()),
{
    let mut generator = rand_chacha::ChaCha8Rng::from_seed(seed);
    rows.shuffle(&mut generator);
}

/// Shuffles `rows` with the seed of the study order.
pub fn shuffle_for_study<T>(rows: &mut Vec<T>)
    ensures
        final(rows)@ == arranged(old(rows)@, shuffled_order(study_seed(), old(rows)@.len())),
        is_arrangement(shuffled_order(study_seed(), old(rows)@.len()), old(rows)@.len()),
{
    let seed: [u8; 32] = [42u8; 32];
    assert(seed@ =~= study_seed());
    shuffle_with_seed(rows, seed);
}

} // verus!
