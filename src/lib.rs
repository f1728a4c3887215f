//! Credential core of a small web service: one-way password digests,
//! signed session tokens and passphrase-keyed content encryption.

pub mod accounts;
pub mod claims;
pub mod ecb;
pub mod hasher;
pub mod token;
pub mod vault;

pub use hasher::hash;
pub use token::{sign, verify};
pub use vault::{decrypt, encrypt};

use vstd::prelude::*;

verus! {

/// A stylesheet reference that a page links to.
pub struct CSS(pub &'static str);

/// A script reference that a page loads.
pub struct JS(pub &'static str);

/// Appends `lit` to `out`.
pub(crate) fn push_all(out: &mut Vec<u8>, lit: &[u8])
    ensures
        final(out)@ == old(out)@ + lit@,
{
    let ghost start = out@;
    let mut i: usize = 0;
    while i < lit.len()
        invariant
            i <= lit@.len(),
            out@ == start + lit@.take(i as int),
        decreases lit.len() - i,
    {
        out.push(lit[i]);
        i += 1;
        assert(out@ =~= start + lit@.take(i as int));
    }
    assert(lit@.take(i as int) =~= lit@);
}

/// Compares two byte strings, looking at every byte of equal-length inputs.
pub(crate) fn same_bytes(a: &[u8], b: &[u8]) -> (r: bool)
    ensures
        r == (a@ == b@),
{
    if a.len() != b.len() {
        return false;
    }
    let mut same = true;
    let mut i: usize = 0;
    assert(a@.take(0) =~= b@.take(0));
    while i < a.len()
        invariant
            a@.len() == b@.len(),
            i <= a@.len(),
            same == (a@.take(i as int) == b@.take(i as int)),
        decreases a.len() - i,
    {
        proof {
            assert(a@.take(i + 1) == a@.take(i as int).push(a@[i as int]));
            assert(b@.take(i + 1) == b@.take(i as int).push(b@[i as int]));
            if a@.take(i + 1) == b@.take(i + 1) {
                assert(a@.take(i + 1)[i as int] == b@.take(i + 1)[i as int]);
                assert(a@.take(i as int) =~= a@.take(i + 1).drop_last());
                assert(b@.take(i as int) =~= b@.take(i + 1).drop_last());
            }
        }
        if a[i] != b[i] {
            same = false;
        }
        i += 1;
    }
    assert(a@.take(i as int) =~= a@);
    assert(b@.take(i as int) =~= b@);
    same
}

} // verus!
