//! The hasher: a one-way transform of a plaintext secret into a verifiable
//! hash, backed by the bcrypt algorithm, and the check of a plaintext
//! against a stored hash.

use vstd::prelude::*;
use crate::json::PasswordManagerError;

verus! {

/// The smallest work factor the algorithm supports.
pub const MIN_HASH_COST: u32 = 4;

/// The largest work factor the algorithm supports.
pub const MAX_HASH_COST: u32 = 31;

/// The work factor used when none is chosen.
pub const DEFAULT_HASH_COST: u32 = 12;

/// Whether a work factor lies in the algorithm's supported range.
pub open spec fn cost_in_range(cost: u32) -> bool {
    MIN_HASH_COST <= cost <= MAX_HASH_COST
}

/// What `bcrypt::verify` returns for a plaintext and a stored hash, with a
/// malformed hash or an internal failure counting as a failed verification.
/// The outcome is a function of the two arguments alone: the stored hash
/// embeds the salt and cost, and verification re-derives the hash from them
/// deterministically.
pub uninterp spec fn bcrypt_verifies(plaintext: Seq<char>, hash: Seq<char>) -> bool;

/// Relies on `bcrypt::hash`: with a cost in the supported range it returns
/// a hash string that `bcrypt::verify` accepts for the same plaintext (the
/// salt and cost it used are embedded in the string), and it fails only
/// when the random salt cannot be drawn from the operating system.
#[verifier::external_body]
fn bcrypt_hash(text: &str, cost: u32) -> (r: Result<String, PasswordManagerError>)
    requires
        cost_in_range(cost),
    ensures
        r matches Ok(h) ==> bcrypt_verifies(text@, h@),
        r matches Err(e) ==> e is HashingFailed,
{
    match bcrypt::hash(text, cost) {
        Ok(h) => Ok(h),
        Err(e) => Err(PasswordManagerError::HashingFailed(format!("{e}"))),
    }
}

/// Relies on `bcrypt::verify`: deterministic in the plaintext and the
/// stored hash; an error on a malformed hash is folded into `false`, so
/// that a bad hash and a wrong password are indistinguishable.
#[verifier::external_body]
fn bcrypt_check(text: &str, hash: &str) -> (r: bool)
    ensures
        r == bcrypt_verifies(text@, hash@),
{
    bcrypt::verify(text, hash).unwrap_or(false)
}

/// Holds the plaintext to transform and the work factor to apply.
pub struct Encoder {
    pub text: String,
    pub hash_cost: u32,
}

impl Default for Encoder {
    fn default() -> (r: Self)
        ensures
            r.text@ == Seq::<char>::empty(),
            r.hash_cost == DEFAULT_HASH_COST,
    {
        Encoder { text: String::new(), hash_cost: DEFAULT_HASH_COST }
    }
}

impl Encoder {
    /// One-way hashes the held plaintext with the held work factor. An
    /// out-of-range work factor fails with `HashingAlgorithmNotSupported`;
    /// an in-range one yields, failing the hashing primitive itself, a hash
    /// that verifies against the plaintext.
    pub fn hash(&self) -> (r: Result<String, PasswordManagerError>)
        ensures
            r matches Ok(h) ==> cost_in_range(self.hash_cost) && bcrypt_verifies(self.text@, h@),
            r matches Err(e) ==> (e is HashingAlgorithmNotSupported || e is HashingFailed),
            r matches Err(e) ==> (e is HashingAlgorithmNotSupported <==> !cost_in_range(
                self.hash_cost,
            )),
            !cost_in_range(self.hash_cost) ==> r is Err,
    {
        if self.hash_cost < MIN_HASH_COST || self.hash_cost > MAX_HASH_COST {
            Err(
                PasswordManagerError::HashingAlgorithmNotSupported(
                    "the work factor must lie between 4 and 31".to_owned(),
                ),
            )
        } else {
            bcrypt_hash(self.text.as_str(), self.hash_cost)
        }
    }

    /// Checks the held plaintext against a stored hash; never fails
    /// outward, a malformed hash simply does not verify.
    pub fn verify(&self, hash: &str) -> (r: bool)
        ensures
            r == bcrypt_verifies(self.text@, hash@),
    {
        bcrypt_check(self.text.as_str(), hash)
    }

    /// Replaces the held plaintext.
    pub fn set_text(&mut self, text: &str)
        ensures
            final(self).text@ == text@,
            final(self).hash_cost == old(self).hash_cost,
    {
        self.text = text.to_owned();
    }
}

} // verus!
