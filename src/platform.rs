use vstd::prelude::*;
use rand::Rng;
use rand::seq::SliceRandom;

verus! {

/// Relies on rand's `Rng::random_range` over an inclusive range (thread-local
/// generator from `rand::rng`): the value lies in `lo..=hi`. The range is
/// non-empty, so the call does not panic.
#[verifier::external_body]
pub(crate) fn random_in_range(lo: i32, hi: i32) -> (r: i32)
    requires
        lo <= hi,
    ensures
        lo <= r <= hi,
{
    rand::rng().random_range(lo..=hi)
}

/// Relies on rand's `SliceRandom::shuffle`: the elements are permuted in
/// place, none added or lost.
#[verifier::external_body]
pub(crate) fn shuffle_in_place(v: &mut Vec<Vec<u8>>)
    ensures
        final(v)@.to_multiset() == old(v)@.to_multiset(),
{
    v.shuffle(&mut rand::rng());
}

/// Relies on uuid's `Uuid::new_v4` and `Uuid::as_u128`: a random identity,
/// given as its 128-bit value. Nothing is promised of the value.
#[verifier::external_body]
pub(crate) fn new_player_id() -> (r: u128) {
    uuid::Uuid::new_v4().as_u128()
}

/// Relies on std's `SystemTime::now` and `duration_since(UNIX_EPOCH)`: the
/// wall-clock time in milliseconds, or 0 before the epoch. Nothing is
/// promised of the value.
#[verifier::external_body]
pub(crate) fn now_millis() -> (r: u64) {
    match std::time::SystemTime::now().duration_since(std::time::UNIX_EPOCH) {
        Ok(d) => d.as_millis() as u64,
        Err(_) => 0,
    }
}

} // verus!
