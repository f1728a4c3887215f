//! Passphrase-keyed content encryption. The key is the Argon2d digest of the
//! passphrase; the cipher is AES-256 in CBC mode with PKCS#7 padding and a
//! fresh random IV for each ciphertext. A ciphertext is the 16-byte IV
//! followed by the cipher's output.

use vstd::prelude::*;
use vstd::utf8::{decode_utf8, valid_utf8};
use crate::hasher::{argon2d_of, hash, password_ok, salt_ok};
use crate::push_all;
use crate::token::utf8_string;

verus! {

/// Length of the IV at the front of a ciphertext.
pub const IV_LEN: usize = 16;

/// The longest input that the cipher takes in one call: a C `int`.
pub const MAX_CIPHER_INPUT: usize = 0x7fff_ffff;

/// The longest content that can be encrypted: its padded form still fits
/// one cipher call.
pub const MAX_CONTENT_LEN: usize = 0x7fff_ffef;

/// Length of the cipher's output for `n` bytes of content: PKCS#7 pads to
/// the next whole block, adding a full block when `n` is a multiple of 16.
pub open spec fn padded_len(n: nat) -> nat {
    16 * (n / 16 + 1)
}

/// Why encryption or decryption failed.
#[derive(Debug, Clone, Copy, PartialEq, Eq, Structural)]
pub enum CipherError {
    /// The cipher library or the random source failed.
    EncryptionFailed,
    /// Wrong passphrase or damaged data; the two are not told apart.
    DecryptionFailed,
}

/// What OpenSSL's AES-256-CBC decryption gives for `data` under `key` and
/// `iv`: the plaintext, or `None` where it fails (bad length or padding).
pub uninterp spec fn aes256cbc_decrypt_of(key: Seq<u8>, iv: Seq<u8>, data: Seq<u8>) -> Option<
    Seq<u8>,
>;

/// Relies on `openssl::symm::encrypt` with `Cipher::aes_256_cbc()`: on
/// success its output is `data` padded to whole 16-byte blocks (PKCS#7, on by
/// default) and encrypted, so it decrypts, under the same key and IV, to
/// `data`. The
/// IV is given, as `Crypter::new` asserts for CBC, and the input length
/// fits a C `int`, as `cipher_update` asserts.
#[verifier::external_body]
fn aes256cbc_encrypt(key: &[u8; 32], iv: &[u8; 16], data: &[u8]) -> (r: Option<Vec<u8>>)
    requires
        data@.len() <= MAX_CONTENT_LEN,
    ensures
        r is Some ==> aes256cbc_decrypt_of(key@, iv@, r->0@) == Some(data@),
        r is Some ==> r->0@.len() == padded_len(data@.len()),
{
    openssl::symm::encrypt(openssl::symm::Cipher::aes_256_cbc(), key, Some(iv), data).ok()
}

/// Relies on `openssl::symm::decrypt` with `Cipher::aes_256_cbc()`.
#[verifier::external_body]
fn aes256cbc_decrypt(key: &[u8; 32], iv: &[u8], data: &[u8]) -> (r: Option<Vec<u8>>)
    requires
        iv@.len() == IV_LEN,
        data@.len() <= MAX_CIPHER_INPUT,
    ensures
        match r {
            Some(p) => aes256cbc_decrypt_of(key@, iv@, data@) == Some(p@),
            None => aes256cbc_decrypt_of(key@, iv@, data@) is None,
        },
{
    openssl::symm::decrypt(openssl::symm::Cipher::aes_256_cbc(), key, Some(iv), data).ok()
}

/// Relies on `openssl::rand::rand_bytes` to fill an IV; nothing is known of
/// the bytes it draws.
#[verifier::external_body]
fn random_iv() -> (r: Option<[u8; 16]>) {
    let mut iv = [0u8; 16];
    match openssl::rand::rand_bytes(&mut iv) {
        Ok(()) => Some(iv),
        Err(_) => None,
    }
}

/// `c` is a ciphertext of `content` under the key `key`.
pub open spec fn seals(key: Seq<u8>, content: Seq<u8>, c: Seq<u8>) -> bool {
    &&& c.len() == IV_LEN + padded_len(content.len())
    &&& aes256cbc_decrypt_of(key, c.take(IV_LEN as int), c.skip(IV_LEN as int)) == Some(content)
}

/// Whether `body` has the shape of a cipher output that one call can take:
/// one or more whole 16-byte blocks, within the cipher's input limit.
pub open spec fn body_shape_ok(body: Seq<u8>) -> bool {
    body.len() > 0 && body.len() % 16 == 0 && body.len() <= MAX_CIPHER_INPUT
}

/// What decrypting `c` with `passphrase` gives.
pub open spec fn open_spec(c: Seq<u8>, passphrase: Seq<u8>, salt: Seq<u8>) -> Result<
    Seq<u8>,
    CipherError,
> {
    if c.len() < IV_LEN || !body_shape_ok(c.skip(IV_LEN as int)) {
        Err(CipherError::DecryptionFailed)
    } else {
        match aes256cbc_decrypt_of(
            argon2d_of(passphrase, salt),
            c.take(IV_LEN as int),
            c.skip(IV_LEN as int),
        ) {
            Some(p) => Ok(p),
            None => Err(CipherError::DecryptionFailed),
        }
    }
}

/// What decrypting `c` with `passphrase` gives as text: UTF-8 that does not
/// decode counts as a failed decryption.
pub open spec fn open_text_spec(c: Seq<u8>, passphrase: Seq<u8>, salt: Seq<u8>) -> Result<
    Seq<char>,
    CipherError,
> {
    match open_spec(c, passphrase, salt) {
        Ok(p) => if valid_utf8(p) {
            Ok(decode_utf8(p))
        } else {
            Err(CipherError::DecryptionFailed)
        },
        Err(e) => Err(e),
    }
}

/// Encrypts `content` under `passphrase` with the given IV.
pub fn encrypt_with_iv(content: &[u8], passphrase: &[u8], salt: &[u8], iv: &[u8; 16]) -> (r:
    Result<Vec<u8>, CipherError>)
    requires
        salt_ok(salt@),
        password_ok(passphrase@),
        content@.len() <= MAX_CONTENT_LEN,
    ensures
        match r {
            Ok(c) => c@.take(IV_LEN as int) == iv@ && seals(
                argon2d_of(passphrase@, salt@),
                content@,
                c@,
            ),
            Err(e) => e == CipherError::EncryptionFailed,
        },
{
    let key = hash(passphrase, salt);
    match aes256cbc_encrypt(&key, iv, content) {
        Some(body) => {
            assert(body@.len() == padded_len(content@.len()));
            let mut out: Vec<u8> = Vec::new();
            push_all(&mut out, iv);
            push_all(&mut out, &body);
            assert(out@.take(IV_LEN as int) =~= iv@);
            assert(out@.skip(IV_LEN as int) =~= body@);
            Ok(out)
        },
        None => Err(CipherError::EncryptionFailed),
    }
}

/// Encrypts `content` under `passphrase` with a fresh random IV.
pub fn encrypt(content: &[u8], passphrase: &[u8], salt: &[u8]) -> (r: Result<
    Vec<u8>,
    CipherError,
>)
    requires
        salt_ok(salt@),
        password_ok(passphrase@),
        content@.len() <= MAX_CONTENT_LEN,
    ensures
        match r {
            Ok(c) => seals(argon2d_of(passphrase@, salt@), content@, c@),
            Err(e) => e == CipherError::EncryptionFailed,
        },
{
    match random_iv() {
        Some(iv) => encrypt_with_iv(content, passphrase, salt, &iv),
        None => Err(CipherError::EncryptionFailed),
    }
}

/// Decrypts `c` with `passphrase`.
pub fn decrypt(c: &[u8], passphrase: &[u8], salt: &[u8]) -> (r: Result<Vec<u8>, CipherError>)
    requires
        salt_ok(salt@),
        password_ok(passphrase@),
    ensures
        match r {
            Ok(p) => open_spec(c@, passphrase@, salt@) == Ok::<Seq<u8>, CipherError>(p@),
            Err(e) => open_spec(c@, passphrase@, salt@) == Err::<Seq<u8>, CipherError>(e),
        },
{
    if c.len() < IV_LEN {
        return Err(CipherError::DecryptionFailed);
    }
    let iv = vstd::slice::slice_subrange(c, 0, IV_LEN);
    let body = vstd::slice::slice_subrange(c, IV_LEN, c.len());
    assert(iv@ =~= c@.take(IV_LEN as int));
    assert(body@ =~= c@.skip(IV_LEN as int));
    if body.len() == 0 || body.len() % 16 != 0 || body.len() > MAX_CIPHER_INPUT {
        return Err(CipherError::DecryptionFailed);
    }
    let key = hash(passphrase, salt);
    match aes256cbc_decrypt(&key, iv, body) {
        Some(p) => Ok(p),
        None => Err(CipherError::DecryptionFailed),
    }
}

/// Decrypts `c` with `passphrase` into text. A wrong passphrase, damaged
/// data and a plaintext that is not UTF-8 all give the one outcome
/// `DecryptionFailed`.
pub fn decrypt_text(c: &[u8], passphrase: &[u8], salt: &[u8]) -> (r: Result<String, CipherError>)
    requires
        salt_ok(salt@),
        password_ok(passphrase@),
    ensures
        match r {
            Ok(s) => open_text_spec(c@, passphrase@, salt@) == Ok::<Seq<char>, CipherError>(s@),
            Err(e) => open_text_spec(c@, passphrase@, salt@) == Err::<Seq<char>, CipherError>(e),
        },
{
    match decrypt(c, passphrase, salt) {
        Ok(p) => match utf8_string(p) {
            Some(s) => Ok(s),
            None => Err(CipherError::DecryptionFailed),
        },
        Err(e) => Err(e),
    }
}

/// What is encrypted under a passphrase decrypts, under the same passphrase
/// and salt, to the content it was made from.
pub proof fn lemma_vault_round_trip(content: Seq<u8>, passphrase: Seq<u8>, salt: Seq<u8>, c: Seq<u8>)
    requires
        content.len() <= MAX_CONTENT_LEN,
        seals(argon2d_of(passphrase, salt), content, c),
    ensures
        open_spec(c, passphrase, salt) == Ok::<Seq<u8>, CipherError>(content),
{
    lemma_padded_shape(content.len());
}

proof fn lemma_padded_shape(n: nat)
    requires
        n <= MAX_CONTENT_LEN,
    ensures
        padded_len(n) > 0,
        padded_len(n) % 16 == 0,
        padded_len(n) <= MAX_CIPHER_INPUT,
{
    let k = n / 16 + 1;
    assert(k <= 0x7fff_fff);
    assert((16 * k) % 16 == 0) by (nonlinear_arith);
    assert(16 * k <= 16 * 0x7fff_fff) by (nonlinear_arith)
        requires
            k <= 0x7fff_fff,
    ;
}

/// Every decryption failure is the same outcome, whatever its cause: a
/// wrong passphrase, damaged or cut data, bad padding, or text that is not
/// UTF-8.
pub proof fn lemma_decrypt_failures_alike(c: Seq<u8>, passphrase: Seq<u8>, salt: Seq<u8>)
    ensures
        open_spec(c, passphrase, salt) is Err ==> open_spec(c, passphrase, salt)
            == Err::<Seq<u8>, CipherError>(CipherError::DecryptionFailed),
        open_text_spec(c, passphrase, salt) is Err ==> open_text_spec(c, passphrase, salt)
            == Err::<Seq<char>, CipherError>(CipherError::DecryptionFailed),
{
}

/// Encrypted text decrypts, under the same passphrase and salt, to the same
/// text.
pub proof fn lemma_vault_text_round_trip(text: Seq<char>, passphrase: Seq<u8>, salt: Seq<u8>, c: Seq<u8>)
    requires
        vstd::utf8::encode_utf8(text).len() <= MAX_CONTENT_LEN,
        seals(argon2d_of(passphrase, salt), vstd::utf8::encode_utf8(text), c),
    ensures
        open_text_spec(c, passphrase, salt) == Ok::<Seq<char>, CipherError>(text),
{
    vstd::utf8::encode_utf8_valid_utf8(text);
    vstd::utf8::encode_utf8_decode_utf8(text);
    lemma_padded_shape(vstd::utf8::encode_utf8(text).len());
}

} // verus!
