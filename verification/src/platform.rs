//! Trusted boundary to the outside world: operating-system entropy, the
//! ChaCha20 generator used for shuffling, the thread-local generator used for
//! bot timing and decisions, the wall clock, and unique identifiers.
//!
//! Every function here is an `external_body` wrapper around a single outside
//! call; nothing below this module is taken on trust.

use vstd::prelude::*;
use rand::Rng;
use rand::RngCore;
use rand::SeedableRng;

verus! {

#[verifier::external_type_specification]
#[verifier::external_body]
pub struct ExChaCha20Rng(rand_chacha::ChaCha20Rng);

/// Relies on getrandom::getrandom: fills the buffer with operating-system
/// entropy. Shuffling must be cryptographically seeded, so a failure of the
/// OS entropy source aborts rather than degrading the seed — an
/// environmental failure, like the one rand's thread-local generator
/// aborts on at first use. No caller's contract depends on the seed's
/// value.
#[verifier::external_body]
pub(crate) fn random_seed() -> [u8; 32] {
    let mut seed = [0u8; 32];
    getrandom::getrandom(&mut seed).expect("getrandom failed");
    seed
}

/// Relies on ChaCha20Rng::from_seed (rand's SeedableRng): builds the
/// generator state from a 32-byte seed. Nothing is claimed of the state.
#[verifier::external_body]
pub(crate) fn rng_from_seed(seed: [u8; 32]) -> rand_chacha::ChaCha20Rng {
    rand_chacha::ChaCha20Rng::from_seed(seed)
}

/// Relies on RngCore::next_u32 for ChaCha20Rng: the next word of the
/// generator's stream. Nothing is claimed of the value.
#[verifier::external_body]
pub(crate) fn rng_next_u32(rng: &mut rand_chacha::ChaCha20Rng) -> u32 {
    rng.next_u32()
}

/// Relies on rand's thread_rng + Rng::gen_range on an inclusive range:
/// the draw lies in [lo, hi]. gen_range panics only on an empty range,
/// which the precondition excludes.
#[verifier::external_body]
pub(crate) fn rand_range_u64(lo: u64, hi: u64) -> (r: u64)
    requires
        lo <= hi,
    ensures
        lo <= r <= hi,
{
    rand::thread_rng().gen_range(lo..=hi)
}

/// A draw uniform over 0..100, for the bot heuristic's mixed choices.
pub(crate) fn percent_draw() -> (r: u8)
    ensures
        r < 100,
{
    let x = rand_range_u64(0, 99);
    x as u8
}

/// Relies on chrono's Utc::now + DateTime::to_rfc3339: the current wall-clock
/// time as an RFC 3339 string. Nothing is claimed of the value.
#[verifier::external_body]
pub(crate) fn now_time() -> String {
    chrono::Utc::now().to_rfc3339()
}

/// Relies on chrono's Utc::now, TimeDelta::milliseconds and DateTime addition:
/// the wall-clock time `ms` milliseconds from now, as an RFC 3339 string.
/// Both the delta construction and the addition panic only far outside the
/// bound the precondition puts on `ms`.
#[verifier::external_body]
pub(crate) fn now_plus_ms(ms: u64) -> String
    requires
        ms <= 1_000_000_000,
{
    (chrono::Utc::now() + chrono::Duration::milliseconds(ms as i64)).to_rfc3339()
}

/// Relies on uuid::Uuid::new_v4 and its Display form: a random version-4
/// UUID, hyphenated, which is always 36 characters long.
#[verifier::external_body]
pub(crate) fn new_id() -> (r: String)
    ensures
        r@.len() == 36,
{
    uuid::Uuid::new_v4().to_string()
}

} // verus!
