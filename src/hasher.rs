//! Password hashing: Argon2d over the password with a fixed, configured salt.

use vstd::prelude::*;

verus! {

/// The shortest salt that Argon2 accepts.
pub const MIN_SALT_LEN: usize = 8;

/// The digest that Argon2d (default cost parameters, no secret, no
/// associated data, 32-byte tag) gives for a password and a salt.
pub uninterp spec fn argon2d_of(password: Seq<u8>, salt: Seq<u8>) -> Seq<u8>;

/// A salt that Argon2 accepts.
pub open spec fn salt_ok(salt: Seq<u8>) -> bool {
    MIN_SALT_LEN <= salt.len() <= u32::MAX
}

/// A password that Argon2 accepts.
pub open spec fn password_ok(password: Seq<u8>) -> bool {
    password.len() <= u32::MAX
}

/// Relies on `argon2rs::Argon2::hash` with `Argon2::default(Variant::Argon2d)`:
/// it writes the 32-byte tag for `password` and `salt`, and asserts that the
/// salt holds 8 to 2^32 - 1 bytes and the password at most 2^32 - 1.
#[verifier::external_body]
fn argon2d(password: &[u8], salt: &[u8]) -> (r: [u8; 32])
    requires
        salt_ok(salt@),
        password_ok(password@),
    ensures
        r@ == argon2d_of(password@, salt@),
{
    let mut out = [0u8; 32];
    let a2 = argon2rs::Argon2::default(argon2rs::Variant::Argon2d);
    a2.hash(&mut out, password, salt, &[], &[]);
    out
}

/// The stored form of a secret: its Argon2d digest under the process-wide
/// salt. The same password and salt always give the same digest.
pub fn hash(password: &[u8], salt: &[u8]) -> (r: [u8; 32])
    requires
        salt_ok(salt@),
        password_ok(password@),
    ensures
        r@ == argon2d_of(password@, salt@),
        r@.len() == 32,
{
    argon2d(password, salt)
}

/// Hashing is a function of the password and the salt: equal inputs give
/// equal digests, so a login compares digests by plain equality.
pub proof fn lemma_hash_deterministic(p1: Seq<u8>, p2: Seq<u8>, salt: Seq<u8>)
    requires
        p1 == p2,
    ensures
        argon2d_of(p1, salt) == argon2d_of(p2, salt),
{
}

} // verus!
