//! Random test data: bytes to send, and bits for the frequency shift keying
//! experiments.
use vstd::prelude::*;
use rand_distr::Distribution;

verus! {

/// One byte drawn uniformly from `[low, high)`.
///
/// Calls `rand_distr::Uniform::<u8>::new(low, high)` (re-exported from
/// `rand`) and samples it with `rand::thread_rng()`.  The crate documents the
/// half-open range `[low, high)` and panics when `low >= high`; which value
/// comes out depends on chance and is left free.
#[verifier::external_body]
fn uniform_byte(low: u8, high: u8) -> (res: u8)
    requires
        low < high,
    ensures
        low <= res < high,
{
    rand_distr::Uniform::<u8>::new(low, high).sample(&mut rand::thread_rng())
}

/// A random truth value: calls `rand::random::<bool>()`.  Nothing is stated
/// of the value, which depends on chance.
#[verifier::external_body]
fn random_bool() -> (res: bool) {
    rand::random::<bool>()
}

/// `n_bytes` random bytes, each drawn uniformly from `[0, 255)`.
pub fn get_bytes(n_bytes: usize) -> (res: Vec<u8>)
    ensures
        res@.len() == n_bytes,
        forall|i: int| 0 <= i < res@.len() ==> #[trigger] res@[i] < 255,
{
    let mut res: Vec<u8> = Vec::new();
    let mut i: usize = 0;
    while i < n_bytes
        invariant
            i <= n_bytes,
            res@.len() == i,
            forall|k: int| 0 <= k < res@.len() ==> #[trigger] res@[k] < 255,
        decreases n_bytes - i,
    {
        res.push(uniform_byte(0, 255));
        i += 1;
    }
    res
}

/// Random bits for `n_symbols` symbols of `bit_per_symbol` bits, one byte
/// (0 or 1) per bit.
pub fn get_random_bits(bit_per_symbol: usize, n_symbols: usize) -> (res: Vec<u8>)
    requires
        bit_per_symbol * n_symbols <= usize::MAX,
    ensures
        res@.len() == bit_per_symbol * n_symbols,
        forall|i: int| 0 <= i < res@.len() ==> #[trigger] res@[i] <= 1,
{
    let n = bit_per_symbol * n_symbols;
    let mut res: Vec<u8> = Vec::new();
    let mut i: usize = 0;
    while i < n
        invariant
            i <= n,
            res@.len() == i,
            forall|k: int| 0 <= k < res@.len() ==> #[trigger] res@[k] <= 1,
        decreases n - i,
    {
        res.push(if random_bool() {
            1
        } else {
            0
        });
        i += 1;
    }
    res
}

} // verus!
