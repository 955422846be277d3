//! The clock and the seeded random order that the search uses.
use vstd::prelude::*;
use rand::seq::SliceRandom;
use rand::SeedableRng;
use rand_chacha::ChaCha8Rng;
use std::time::{Duration, Instant};

verus! {

#[verifier::external_type_specification]
#[verifier::external_body]
pub struct ExInstant(std::time::Instant);

#[verifier::external_type_specification]
#[verifier::external_body]
pub struct ExChaCha8Rng(rand_chacha::ChaCha8Rng);

/// `Instant::now`: the current time; nothing is stated of it.
#[verifier::external_body]
pub(crate) fn clock_now() -> Instant {
    Instant::now()
}

/// `Instant::checked_add`: the instant `limit` after `start`, or `None`
/// where the platform cannot represent it; nothing more is stated.
#[verifier::external_body]
pub(crate) fn deadline_after(start: &Instant, limit: Duration) -> Option<Instant> {
    start.checked_add(limit)
}

/// `Instant >= Instant`: whether `now` is at or after `deadline`; nothing
/// is stated of the answer.
#[verifier::external_body]
pub(crate) fn has_reached(now: &Instant, deadline: &Instant) -> bool {
    *now >= *deadline
}

/// `Instant::elapsed`: the time since `start`; nothing is stated of it.
#[verifier::external_body]
pub(crate) fn elapsed_since(start: &Instant) -> Duration {
    start.elapsed()
}

/// Whether the deadline (if any) has passed: never without a deadline;
/// with one, the answer depends on the clock and is not stated.
pub(crate) fn out_of_time(deadline: &Option<Instant>) -> (r: bool)
    ensures
        deadline.is_none() ==> !r,
{
    match deadline {
        None => false,
        Some(d) => {
            let now = clock_now();
            has_reached(&now, d)
        },
    }
}

/// The order in which a shuffle leaves the positions of a list of `n`
/// elements, drawn from a generator seeded with `seed` after shuffles of
/// lists of the lengths `history`: the element at position `k` afterwards
/// is the one that was at `shuffle_order(seed, history, n)[k]`. (A seeded
/// ChaCha generator's output depends on its seed alone, and the shuffle
/// draws one index per position, so this is a function of these values.)
pub uninterp spec fn shuffle_order(seed: u64, history: Seq<nat>, n: nat) -> Seq<nat>;

/// `s` with its positions taken in the order `order`.
pub open spec fn reorder<T>(s: Seq<T>, order: Seq<nat>) -> Seq<T> {
    Seq::new(order.len(), |k: int| s[order[k] as int])
}

/// `order` lists each position `0..n` once.
pub open spec fn is_index_order(order: Seq<nat>, n: nat) -> bool {
    &&& order.len() == n
    &&& forall|k: int| 0 <= k < n ==> #[trigger] order[k] < n
    &&& forall|k: int, j: int| 0 <= k < j < n ==> #[trigger] order[k] != #[trigger] order[j]
}

/// A seeded generator: its seed and the lengths of the lists it has
/// shuffled, which fix every order it gives next.
pub struct Generator {
    rng: ChaCha8Rng,
    start: Ghost<u64>,
    lengths: Ghost<Seq<nat>>,
}

impl Generator {
    /// The seed the generator was made with.
    pub closed spec fn seed(&self) -> u64 {
        self.start@
    }

    /// The lengths of the lists it has shuffled, in order.
    pub closed spec fn history(&self) -> Seq<nat> {
        self.lengths@
    }
}

/// `ChaCha8Rng::seed_from_u64`: a generator seeded from `seed`, which has
/// shuffled nothing yet.
#[verifier::external_body]
pub(crate) fn seeded_rng(seed: u64) -> (r: Generator)
    ensures
        r.seed() == seed,
        r.history() == Seq::<nat>::empty(),
{
    Generator { rng: ChaCha8Rng::seed_from_u64(seed), start: Ghost(seed), lengths: Ghost(Seq::empty()) }
}

/// `SliceRandom::shuffle` (rand 0.8): a Fisher-Yates shuffle that only
/// swaps elements, with the indices drawn from the generator: the result
/// is the list in the order `shuffle_order` names for the generator's seed
/// and history, an order of all positions; the generator records the
/// length shuffled.
#[verifier::external_body]
pub(crate) fn shuffle_vec<T>(v: &mut Vec<T>, rng: &mut Generator)
    ensures
        is_index_order(shuffle_order(old(rng).seed(), old(rng).history(), old(v)@.len()), old(v)@.len()),
        final(v)@ == reorder(old(v)@, shuffle_order(old(rng).seed(), old(rng).history(), old(v)@.len())),
        final(v)@.to_multiset() == old(v)@.to_multiset(),
        final(rng).seed() == old(rng).seed(),
        final(rng).history() == old(rng).history().push(old(v)@.len()),
{
    let n = v.len();
    v.shuffle(&mut rng.rng);
    rng.lengths = Ghost(rng.lengths@.push(n as nat));
}

} // verus!
