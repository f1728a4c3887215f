//! The clipboard's numbering: a clip written without a name is filed under a
//! code taken from a hash of its content.

use vstd::prelude::*;

verus! {

/// How many codes there are; a code is below this.
pub const CLIP_CODES: u64 = 10000;

/// Relies on `fxhash::hash64`. It reads the bytes in the machine's own byte
/// order, so nothing is stated of its value here.
#[verifier::external_body]
fn fxhash64(s: &String) -> (r: u64) {
    fxhash::hash64(s)
}

/// The code for a content whose 64-bit hash is `h`.
pub fn clip_code_of_hash(h: u64) -> (r: i32)
    ensures
        r as int == (h % CLIP_CODES) as int,
{
    (h % CLIP_CODES) as i32
}

/// The code under which an unnamed clip with this content is filed: its
/// FxHash (64-bit) modulo the number of codes.
pub fn clip_code(content: &String) -> (r: i32)
    ensures
        0 <= r < CLIP_CODES,
{
    clip_code_of_hash(fxhash64(content))
}

} // verus!
