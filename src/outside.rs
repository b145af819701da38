//! Calls into chrono and rand that the pool's decisions rest on.
use vstd::prelude::*;

use rand::seq::IteratorRandom;

verus! {

/// Relies on chrono's `Utc::now`, split by `timestamp` into whole seconds
/// since the Unix epoch and by `timestamp_subsec_nanos` into nanoseconds,
/// which exceed 999,999,999 only in a leap second.
#[verifier::external_body]
pub(crate) fn utc_now() -> (r: (i64, u32))
    ensures
        r.1 < 2_000_000_000,
{
    let t = chrono::Utc::now();
    (t.timestamp(), t.timestamp_subsec_nanos())
}

/// Relies on rand's `IteratorRandom::choose_multiple` with the thread-local
/// generator: a sample without repetition of `min(amount, len)` of the items.
#[verifier::external_body]
pub(crate) fn choose_multiple(items: Vec<usize>, amount: usize) -> (r: Vec<usize>)
    requires
        items@.no_duplicates(),
    ensures
        r.len() == if amount <= items.len() { amount } else { items.len() },
        r@.no_duplicates(),
        forall|i: int| 0 <= i < r.len() ==> items@.contains(#[trigger] r[i]),
{
    items.into_iter().choose_multiple(&mut rand::thread_rng(), amount)
}

/// Relies on rand's `random` for `u128`: a value from the thread-local
/// generator, about which nothing is promised.
#[verifier::external_body]
pub(crate) fn random_u128() -> (r: u128)
{
    rand::random::<u128>()
}

} // verus!
