use sr_rs::claims::{decode_claims, encode_claims};
use base64::Engine;
use sr_rs::token::{expiry, sign, verify, SigningError, TokenError};

const KEY: &[u8] = b"test-signing-key";
const UUID: &str = "11111111-1111-1111-1111-111111111111";
const NOW: u64 = 1_700_000_000;
const HOUR: u64 = 3600;

fn signed(info: &str, exp: u64) -> String {
    let r: Result<String, SigningError> = sign(info, exp, KEY);
    r.unwrap()
}

#[test]
fn claims_text_is_json() {
    let text = encode_claims(5, "a\"b\\c\n\u{1f}d".as_bytes());
    assert_eq!(
        String::from_utf8(text.clone()).unwrap(),
        "{\"exp\":5,\"info\":\"a\\\"b\\\\c\\n\\u001fd\"}"
    );
    assert_eq!(decode_claims(&text), Some((5, "a\"b\\c\n\u{1f}d".as_bytes().to_vec())));
}

#[test]
fn claims_large_and_zero_expiration() {
    let text = encode_claims(u64::MAX, b"x");
    assert_eq!(text, b"{\"exp\":18446744073709551615,\"info\":\"x\"}".to_vec());
    assert_eq!(decode_claims(&text), Some((u64::MAX, b"x".to_vec())));
    assert_eq!(encode_claims(0, b""), b"{\"exp\":0,\"info\":\"\"}".to_vec());
    assert_eq!(decode_claims(b"{\"exp\":0,\"info\":\"\"}"), Some((0, Vec::new())));
}

#[test]
fn claims_reader_edge_cases() {
    assert_eq!(decode_claims(b""), None);
    assert_eq!(decode_claims(b"{\"exp\":05,\"info\":\"x\"}"), None);
    assert_eq!(decode_claims(b"{\"exp\":18446744073709551616,\"info\":\"x\"}"), None);
    assert_eq!(decode_claims(b"{\"exp\":,\"info\":\"x\"}"), None);
    assert_eq!(decode_claims(b"{\"exp\":1,\"info\":\"x\"} "), Some((1, b"x".to_vec())));
    assert_eq!(decode_claims(b"{\"exp\":1,\"info\":\"x\"y\"}"), None);
    assert_eq!(decode_claims(b"{\"exp\":1,\"info\":\"\\u0041\"}"), Some((1, b"A".to_vec())));
    assert_eq!(decode_claims(b"{\"exp\":1,\"info\":\"\n\"}"), None);
}

#[test]
fn token_matches_standard_hs256_form() {
    let tok = signed(UUID, NOW + HOUR);
    assert_eq!(
        tok,
        "eyJ0eXAiOiJKV1QiLCJhbGciOiJIUzI1NiJ9.\
         eyJleHAiOjE3MDAwMDM2MDAsImluZm8iOiIxMTExMTExMS0xMTExLTExMTEtMTExMS0xMTExMTExMTExMTEifQ.\
         aMJSySvPR35uyjcU2iIz7mtsVjbsNDRaNT_tiseIBWA"
    );
}

#[test]
fn sign_then_verify_before_expiration() {
    let tok = signed(UUID, NOW + HOUR);
    assert_eq!(verify(&tok, KEY, NOW), Ok(UUID.to_string()));
    assert_eq!(verify(&tok, KEY, NOW + HOUR), Ok(UUID.to_string()));
}

#[test]
fn verify_after_expiration() {
    let tok = signed(UUID, NOW + HOUR);
    assert_eq!(verify(&tok, KEY, NOW + HOUR + 1), Err(TokenError::Expired));
    let past = signed("p", NOW - 10);
    assert_eq!(verify(&past, KEY, NOW), Err(TokenError::Expired));
}

#[test]
fn round_trip_of_unusual_payloads() {
    for p in ["", "\"quoted\" \\ back", "tab\tnew\nline", "Olá, mundo ✓", "\u{0}\u{7f}"] {
        let tok = signed(p, NOW);
        assert_eq!(verify(&tok, KEY, NOW), Ok(p.to_string()));
    }
}

#[test]
fn every_flipped_byte_is_caught() {
    let tok = signed(UUID, NOW + HOUR);
    let bytes = tok.as_bytes().to_vec();
    for j in 0..bytes.len() {
        let mut t = bytes.clone();
        t[j] = if t[j] == b'A' { b'B' } else { b'A' };
        let s = String::from_utf8(t).unwrap();
        assert_eq!(verify(&s, KEY, NOW), Err(TokenError::BadSignature), "byte {}", j);
    }
}

#[test]
fn wrong_key_is_bad_signature() {
    let tok = signed(UUID, NOW + HOUR);
    assert_eq!(verify(&tok, b"another-key", NOW), Err(TokenError::BadSignature));
}

#[test]
fn malformed_tokens() {
    assert_eq!(verify("", KEY, NOW), Err(TokenError::Malformed));
    assert_eq!(verify("no-dots-here", KEY, NOW), Err(TokenError::Malformed));
    assert_eq!(verify("one.dot", KEY, NOW), Err(TokenError::BadSignature));
    let tok = signed(UUID, NOW + HOUR);
    let cut = &tok[..tok.len() - 1];
    assert_eq!(verify(cut, KEY, NOW), Err(TokenError::BadSignature));
}

#[test]
fn validly_signed_garbage_is_malformed() {
    let tok = signed(UUID, NOW + HOUR);
    let sig_start = tok.rfind('.').unwrap();
    let header_end = tok.find('.').unwrap();
    let msg = &tok[..header_end];
    let expected = jsonwebtoken::crypto::sign(
        msg.as_bytes(),
        &jsonwebtoken::EncodingKey::from_secret(KEY),
        jsonwebtoken::Algorithm::HS256,
    )
    .unwrap();
    let forged = format!("{}.{}", msg, expected);
    assert_eq!(verify(&forged, KEY, NOW), Err(TokenError::Malformed));
    assert!(sig_start > header_end);
}

fn standard_token(header: &str, claims: &str, key: &[u8]) -> String {
    let b64 = base64::engine::general_purpose::URL_SAFE_NO_PAD;
    let msg = format!("{}.{}", b64.encode(header), b64.encode(claims));
    let sig = jsonwebtoken::crypto::sign(
        msg.as_bytes(),
        &jsonwebtoken::EncodingKey::from_secret(key),
        jsonwebtoken::Algorithm::HS256,
    )
    .unwrap();
    format!("{}.{}", msg, sig)
}

#[test]
fn accepts_other_standard_headers() {
    let claims = "{\"exp\":1700003600,\"info\":\"u\"}";
    for h in ["{\"alg\":\"HS256\"}", "{\"alg\":\"HS256\",\"typ\":\"JWT\"}", "{ \"typ\" : \"JWT\" , \"alg\" : \"HS256\" }"] {
        let tok = standard_token(h, claims, KEY);
        assert_eq!(verify(&tok, KEY, NOW), Ok("u".to_string()), "{}", h);
    }
}

#[test]
fn refuses_other_algorithms_and_bad_headers() {
    let claims = "{\"exp\":1700003600,\"info\":\"u\"}";
    for h in ["{\"alg\":\"HS384\"}", "{\"typ\":\"JWT\"}", "not json", "{\"alg\":\"none\"}"] {
        let tok = standard_token(h, claims, KEY);
        assert_eq!(verify(&tok, KEY, NOW), Err(TokenError::Malformed), "{}", h);
    }
}

#[test]
fn accepts_other_json_forms_of_the_claims() {
    let h = "{\"typ\":\"JWT\",\"alg\":\"HS256\"}";
    let cases = [
        ("{\"info\":\"u\",\"exp\":1700003600}", "u"),
        (" {\n \"exp\" : 1700003600 ,\t\"info\" : \"u\" } \n", "u"),
        ("{\"exp\":1700003600,\"info\":\"a\\nb\\t\\/\\u0041\\u00e9\"}", "a\nb\t/Aé"),
        ("{\"exp\":1700003600,\"info\":\"\\ud83d\\ude00\"}", "\u{1f600}"),
        ("{\"exp\":1700003600,\"info\":\"x\",\"iat\":1.5e3,\"aud\":[1,{\"a\":[true,false,null]},\"s\"]}", "x"),
        ("{\"\\u0065xp\":1700003600,\"info\":\"\\u00E9\"}", "é"),
    ];
    for (c, want) in cases {
        let tok = standard_token(h, c, KEY);
        assert_eq!(verify(&tok, KEY, NOW), Ok(want.to_string()), "{}", c);
    }
}

#[test]
fn refuses_claims_that_are_not_the_claims_object() {
    let h = "{\"alg\":\"HS256\"}";
    for c in [
        "{\"exp\":1700003600}",
        "{\"info\":\"u\"}",
        "{\"exp\":1700003600,\"info\":\"u\",}",
        "{\"exp\":1700003600,\"exp\":1700003600,\"info\":\"u\"}",
        "{\"exp\":1700003600.0,\"info\":\"u\"}",
        "{\"exp\":-1,\"info\":\"u\"}",
        "{\"exp\":\"1700003600\",\"info\":\"u\"}",
        "{\"exp\":1700003600,\"info\":7}",
        "{\"exp\":1700003600,\"info\":\"\\ud83d\"}",
        "{\"exp\":1700003600,\"info\":\"u\"} x",
        "[1700003600,\"u\"]",
    ] {
        let tok = standard_token(h, c, KEY);
        assert_eq!(verify(&tok, KEY, NOW), Err(TokenError::Malformed), "{}", c);
    }
}

#[test]
fn general_claims_still_expire() {
    let tok = standard_token("{\"alg\":\"HS256\"}", "{\"info\":\"u\",\"exp\":10}", KEY);
    assert_eq!(verify(&tok, KEY, 10), Ok("u".to_string()));
    assert_eq!(verify(&tok, KEY, 11), Err(TokenError::Expired));
}

#[test]
fn decode_claims_of_json_forms() {
    assert_eq!(decode_claims(b"{ \"info\" : \"\\\"q\\\"\", \"exp\" : 0 }"), Some((0, b"\"q\"".to_vec())));
    assert_eq!(decode_claims(b"{\"exp\":01,\"info\":\"x\"}"), None);
    assert_eq!(decode_claims(b"{\"exp\":1,\"info\":\"x\",\"n\":[[[[]]]]}"), Some((1, b"x".to_vec())));
    assert_eq!(decode_claims(b"{\"exp\":1,\"info\":\"\\x\"}"), None);
}

#[test]
fn session_expiry_window() {
    assert_eq!(expiry(NOW, HOUR), NOW + HOUR);
    assert_eq!(expiry(u64::MAX - 5, HOUR), u64::MAX);
    assert_eq!(expiry(0, 0), 0);
}
