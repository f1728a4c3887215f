use sr_rs::accounts::{get_id, AuthError};
use sr_rs::ecb::{clip_code, clip_code_of_hash};
use sr_rs::hash;
use sr_rs::token::{sign, TokenError};
use sr_rs::vault::{decrypt, decrypt_text, encrypt, encrypt_with_iv, CipherError};

const SALT: &[u8] = b"configured-salt-value";
const KEY: &[u8] = b"test-signing-key";
const NOW: u64 = 1_700_000_000;

#[test]
fn hash_is_deterministic_and_case_sensitive() {
    let a = hash(b"correct horse battery staple", SALT);
    let b = hash(b"correct horse battery staple", SALT);
    let c = hash(b"Correct horse battery staple", SALT);
    assert_eq!(a.len(), 32);
    assert_eq!(a, b);
    assert_ne!(a, c);
}

#[test]
fn hash_depends_on_salt() {
    let a = hash(b"pw", SALT);
    let b = hash(b"pw", b"another-salt");
    assert_ne!(a, b);
    assert_ne!(hash(b"", SALT), [0u8; 32]);
}

#[test]
fn vault_round_trip_and_wrong_passphrase() {
    let c = encrypt(b"hello world", b"swordfish", SALT).unwrap();
    assert_eq!(decrypt_text(&c, b"swordfish", SALT), Ok("hello world".to_string()));
    assert_eq!(decrypt_text(&c, b"sw0rdfish", SALT), Err(CipherError::DecryptionFailed));
}

#[test]
fn vault_with_fixed_iv() {
    let iv = [7u8; 16];
    let c = encrypt_with_iv(b"hello world", b"swordfish", SALT, &iv).unwrap();
    assert_eq!(&c[..16], &iv[..]);
    assert_eq!(c.len(), 32);
    assert_eq!(decrypt(&c, b"swordfish", SALT), Ok(b"hello world".to_vec()));
    assert_ne!(&c[16..], b"hello world\x05\x05\x05\x05\x05");
    let d = encrypt_with_iv(b"hello world", b"swordfish", SALT, &[8u8; 16]).unwrap();
    assert_ne!(c[16..], d[16..]);
}

#[test]
fn vault_random_ivs_differ() {
    let c = encrypt(b"same", b"k", SALT).unwrap();
    let d = encrypt(b"same", b"k", SALT).unwrap();
    assert_ne!(c, d);
    assert_eq!(decrypt(&d, b"k", SALT), Ok(b"same".to_vec()));
}

#[test]
fn vault_empty_and_block_sized_content() {
    let c = encrypt(b"", b"k", SALT).unwrap();
    assert_eq!(c.len(), 32);
    assert_eq!(decrypt(&c, b"k", SALT), Ok(Vec::new()));
    let block = [0x41u8; 16];
    let c = encrypt(&block, b"k", SALT).unwrap();
    assert_eq!(c.len(), 48);
    assert_eq!(decrypt(&c, b"k", SALT), Ok(block.to_vec()));
}

#[test]
fn vault_damaged_data() {
    assert_eq!(decrypt(b"short", b"k", SALT), Err(CipherError::DecryptionFailed));
    assert_eq!(decrypt(&[0u8; 16], b"k", SALT), Err(CipherError::DecryptionFailed));
    let c = encrypt(b"hello world", b"k", SALT).unwrap();
    assert_eq!(decrypt(&c[..c.len() - 1], b"k", SALT), Err(CipherError::DecryptionFailed));
}

#[test]
fn vault_body_shape() {
    let c = encrypt(b"hello world", b"k", SALT).unwrap();
    assert_eq!(decrypt(&c[..16], b"k", SALT), Err(CipherError::DecryptionFailed));
    assert_eq!(decrypt(&c[..17], b"k", SALT), Err(CipherError::DecryptionFailed));
    let mut longer = c.clone();
    longer.push(0);
    assert_eq!(decrypt(&longer, b"k", SALT), Err(CipherError::DecryptionFailed));
    for n in [0usize, 1, 15, 16, 17, 31, 32, 100] {
        let content = vec![b'z'; n];
        let c = encrypt(&content, b"k", SALT).unwrap();
        assert_eq!(c.len(), 16 + 16 * (n / 16 + 1));
        assert_eq!(decrypt(&c, b"k", SALT), Ok(content));
    }
}

#[test]
fn vault_binary_plaintext_is_not_text() {
    let c = encrypt_with_iv(&[0xff, 0xfe, 0x00], b"k", SALT, &[1u8; 16]).unwrap();
    assert_eq!(decrypt(&c, b"k", SALT), Ok(vec![0xff, 0xfe, 0x00]));
    assert_eq!(decrypt_text(&c, b"k", SALT), Err(CipherError::DecryptionFailed));
}

#[test]
fn session_cookie_to_account_id() {
    let tok = sign("11111111-1111-1111-1111-111111111111", NOW + 3600, KEY).unwrap();
    assert_eq!(get_id(Some(&tok), KEY, NOW), Ok(0x11111111_1111_1111_1111_111111111111));
    assert_eq!(get_id(Some(&tok), KEY, NOW + 3601), Err(AuthError::Token(TokenError::Expired)));
    assert_eq!(get_id(Some(&tok), b"other", NOW), Err(AuthError::Token(TokenError::BadSignature)));
    assert_eq!(get_id(None, KEY, NOW), Err(AuthError::MissingCookie));
    let bad = sign("not-a-uuid", NOW + 3600, KEY).unwrap();
    assert_eq!(get_id(Some(&bad), KEY, NOW), Err(AuthError::BadId));
}

#[test]
fn refusals_answer_with_status_codes() {
    assert_eq!(AuthError::MissingCookie.status_code(), 401);
    assert_eq!(AuthError::Token(TokenError::Malformed).status_code(), 401);
    assert_eq!(AuthError::Token(TokenError::Expired).status_code(), 401);
    assert_eq!(AuthError::BadId.status_code(), 400);
}

#[test]
fn clip_codes_come_from_fxhash() {
    for s in ["", "hello", "some clip content"] {
        let content = s.to_string();
        let code = clip_code(&content);
        assert!((0..10000).contains(&code));
        assert_eq!(code as u64, fxhash::hash64(&content) % 10000);
    }
    assert_eq!(clip_code(&"same".to_string()), clip_code(&"same".to_string()));
}

#[test]
fn clip_code_of_known_hashes() {
    assert_eq!(clip_code_of_hash(0), 0);
    assert_eq!(clip_code_of_hash(12345), 2345);
    assert_eq!(clip_code_of_hash(u64::MAX), 1615);
}
