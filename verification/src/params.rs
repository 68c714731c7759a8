//! Parameter regime for the LWE-based PIR engine.
//!
//! All ciphertext arithmetic is over the fixed modulus `q = 2^32`; plaintext
//! cells live modulo `p = 2^mod_power`. The scaling factor between the two is
//! `delta = q / p`, exact because both moduli are powers of two.

use vstd::prelude::*;

verus! {

/// The ciphertext modulus `q = 2^32`.
pub const CIPHER_MOD: u64 = 0x1_0000_0000;

/// The largest plaintext modulus exponent accepted by the engine; the
/// compressed answer path packs two sub-`2^21` cells in one word, so every
/// plaintext modulus is kept strictly below `2^21`.
pub const MAX_MOD_POWER: u64 = 20;

/// Errors surfaced by the PIR engine and the codecs.
///
/// Numeric noise above the error budget is never surfaced here: it shows up
/// as garbled plaintext, detected only by downstream decoding.
#[derive(Clone, Copy, Debug, PartialEq, Eq, Structural)]
pub enum PirError {
    /// A requested record index lies outside the database.
    IndexOutOfRange,
    /// Vector or matrix dimensions disagree.
    DimensionMismatch,
    /// A plaintext modulus of `2^21` or more was requested on a path that
    /// requires `p < 2^21`.
    ModulusTooLarge,
    /// The server has not yet published an epoch.
    NotReady,
    /// A recovered record failed UTF-8 decoding (decryption garble).
    InvalidUtf8,
    /// An empty record set cannot be published as an epoch.
    EmptyCorpus,
}

/// The parameters a database and its clients share: the LWE secret dimension
/// and the plaintext modulus exponent.
#[derive(Clone, Copy, Debug, PartialEq, Eq, Structural)]
pub struct PirParams {
    /// LWE secret dimension `n`.
    pub secret_dimension: usize,
    /// Plaintext modulus exponent `m_p`; the plaintext modulus is `2^m_p`.
    pub mod_power: u64,
}

impl PirParams {
    /// The regime the engine accepts: a positive secret dimension and a
    /// plaintext modulus `2^1 ..= 2^20`.
    pub open spec fn valid(self) -> bool {
        &&& 1 <= self.secret_dimension
        &&& 1 <= self.mod_power <= MAX_MOD_POWER
    }

    /// The plaintext modulus `p = 2^mod_power`.
    pub open spec fn plain_mod_spec(self) -> u64 {
        (1u64 << self.mod_power) as u64
    }

    /// The scaling factor `delta = q / p = 2^(32 - mod_power)`.
    pub open spec fn delta_spec(self) -> u64 {
        (1u64 << (32 - self.mod_power)) as u64
    }

    /// Builds a parameter set, rejecting exponents outside the accepted
    /// regime with a parameter error.
    pub fn new(secret_dimension: usize, mod_power: u64) -> (r: Result<PirParams, PirError>)
        ensures
            match r {
                Ok(p) => p.valid() && p.secret_dimension == secret_dimension
                    && p.mod_power == mod_power,
                Err(e) => {
                    &&& !(PirParams { secret_dimension, mod_power }).valid()
                    &&& e == (if mod_power < 1 || mod_power > MAX_MOD_POWER {
                        PirError::ModulusTooLarge
                    } else {
                        PirError::DimensionMismatch
                    })
                },
            },
    {
        if mod_power < 1 || mod_power > MAX_MOD_POWER {
            Err(PirError::ModulusTooLarge)
        } else if secret_dimension < 1 {
            Err(PirError::DimensionMismatch)
        } else {
            Ok(PirParams { secret_dimension, mod_power })
        }
    }

    /// The plaintext modulus as a run-time value.
    pub fn plain_mod(&self) -> (r: u64)
        requires
            self.valid(),
        ensures
            r == self.plain_mod_spec(),
            2 <= r <= 0x10_0000,
    {
        proof {
            lemma_shift_monotone(self.mod_power);
        }
        1u64 << self.mod_power
    }

    /// The scaling factor as a run-time value.
    pub fn delta(&self) -> (r: u64)
        requires
            self.valid(),
        ensures
            r == self.delta_spec(),
            r >= 0x1000,
    {
        proof {
            lemma_shift_monotone((32 - self.mod_power) as u64);
        }
        1u64 << (32 - self.mod_power)
    }
}

/// For shift amounts up to 31, `1 << k` lies between `1` and `2^31` and is
/// monotone enough to bound: `2^k >= 2^j` when `k >= j`.
pub proof fn lemma_shift_monotone(k: u64)
    requires
        k <= 31,
    ensures
        1u64 <= (1u64 << k),
        k >= 1 ==> (1u64 << k) >= 2,
        k <= 8 ==> (1u64 << k) <= 0x100,
        k <= 20 ==> (1u64 << k) <= 0x10_0000,
        k >= 12 ==> (1u64 << k) >= 0x1000,
        k >= 9 ==> (1u64 << k) >= 0x200,
        k >= 17 ==> (1u64 << k) >= 0x2_0000,
{
    assert(1u64 <= (1u64 << k) && (k >= 1 ==> (1u64 << k) >= 2)
        && (k <= 8 ==> (1u64 << k) <= 0x100)
        && (k <= 20 ==> (1u64 << k) <= 0x10_0000) && (k >= 12 ==> (1u64 << k) >= 0x1000)
        && (k >= 9 ==> (1u64 << k) >= 0x200)
        && (k >= 17 ==> (1u64 << k) >= 0x2_0000))
        by (bit_vector)
        requires
            k <= 31,
    ;
}

} // verus!
