//! Signed requests.

use base64::{engine::general_purpose::STANDARD as BASE64, Engine};
use btc_kalshi::executor::auth::{
    message_to_sign, parse_private_key, AuthError, AuthHeaders, KalshiAuth,
};
use btc_kalshi::executor::client::{ConfigError, KalshiClient};
use rand::rngs::OsRng;
use rsa::pkcs1::{EncodeRsaPrivateKey, LineEnding};
use rsa::pkcs1v15::{Signature, VerifyingKey};
use rsa::pkcs8::EncodePrivateKey;
use rsa::signature::{Keypair, Verifier};
use rsa::traits::PrivateKeyParts;
use rsa::{BigUint, RsaPrivateKey};
use sha2::Sha256;

fn contains_key(headers: &AuthHeaders, name: &str) -> bool {
    headers.get(name).is_some()
}

#[test]
fn sign_request_produces_valid_headers() {
    let private_key =
        RsaPrivateKey::new(&mut OsRng, 2048).expect("failed to generate test RSA key");

    let auth = KalshiAuth { key_id: "test-key-id".to_string(), private_key };

    let headers = auth
        .sign_request("POST", "/portfolio/orders")
        .expect("sign_request should not fail");

    assert!(contains_key(&headers, "kalshi-access-key"), "missing access-key header");
    assert!(
        contains_key(&headers, "kalshi-access-timestamp"),
        "missing timestamp header"
    );
    assert!(
        contains_key(&headers, "kalshi-access-signature"),
        "missing signature header"
    );

    // Verify signature is valid non-empty base64
    let sig_str = headers
        .get("kalshi-access-signature")
        .expect("signature header present");
    let decoded = BASE64.decode(sig_str).expect("signature should be valid base64");
    assert!(!decoded.is_empty(), "decoded signature should not be empty");

    // Key header should match what we set
    let key_str = headers
        .get("kalshi-access-key")
        .expect("key header present");
    assert_eq!(key_str, "test-key-id");
}

#[test]
fn sign_request_timestamp_is_numeric() {
    let private_key =
        RsaPrivateKey::new(&mut OsRng, 2048).expect("failed to generate test RSA key");
    let auth = KalshiAuth { key_id: "k".to_string(), private_key };
    let headers = auth.sign_request("GET", "/portfolio/balance").expect("sign ok");
    let ts_str = headers
        .get("kalshi-access-timestamp")
        .expect("ts header present");
    let ts: u64 = ts_str.parse().expect("timestamp should be a valid u64");
    assert!(ts > 0, "timestamp should be positive");
}

#[test]
fn signature_verifies_over_time_method_and_path() {
    let private_key = RsaPrivateKey::new(&mut OsRng, 1024).expect("a key");
    let auth = KalshiAuth { key_id: "k".to_string(), private_key: private_key.clone() };
    let headers = auth.sign_at("get", "/trade-api/v2/markets", 1_775_613_600_000).expect("signed");
    assert_eq!(headers.timestamp, "1775613600000");
    let message = "1775613600000GET/trade-api/v2/markets";
    assert_eq!(message_to_sign(1_775_613_600_000, "GET", "/trade-api/v2/markets"), message);
    let signer = rsa::pkcs1v15::SigningKey::<Sha256>::new(private_key);
    let verifier: VerifyingKey<Sha256> = signer.verifying_key();
    let bytes = BASE64.decode(&headers.signature).expect("base64");
    let signature = Signature::try_from(bytes.as_slice()).expect("a signature");
    assert!(verifier.verify(message.as_bytes(), &signature).is_ok());
    assert!(verifier.verify(b"1775613600001GET/trade-api/v2/markets", &signature).is_err());
    // The same request at the same time is signed alike.
    let again = auth.sign_at("GET", "/trade-api/v2/markets", 1_775_613_600_000).expect("signed");
    assert_eq!(again.signature, headers.signature);
    assert!(headers.get("host").is_none());
}

#[test]
fn keys_are_read_in_both_forms() {
    let key = RsaPrivateKey::new(&mut OsRng, 512).expect("a key");
    let pkcs8 = key.to_pkcs8_pem(LineEnding::LF).expect("pem");
    let pkcs1 = key.to_pkcs1_pem(LineEnding::LF).expect("pem");
    assert_eq!(parse_private_key(&pkcs8).expect("PKCS#8"), key);
    assert_eq!(parse_private_key(&pkcs1).expect("PKCS#1"), key);
    assert_eq!(parse_private_key("no key").err(), Some(AuthError::MalformedPrivateKey));
    assert_eq!(KalshiAuth::from_env(None, Some(&pkcs8)).err(), Some(AuthError::MissingKeyId));
    assert_eq!(KalshiAuth::from_env(Some("k"), None).err(), Some(AuthError::MissingPrivateKey));
    assert_eq!(
        KalshiAuth::from_env(Some("k"), Some("?")).err(),
        Some(AuthError::MalformedPrivateKey)
    );
    let auth = KalshiAuth::from_env(Some("k"), Some(&pkcs1)).ok().expect("an identity");
    assert_eq!(auth.private_key, key);
}

#[test]
fn what_cannot_be_signed_or_sent_is_refused() {
    let small = RsaPrivateKey::new(&mut OsRng, 256).expect("a key");
    let auth = KalshiAuth { key_id: "k".to_string(), private_key: small };
    assert_eq!(auth.sign_at("GET", "/", 1).err(), Some(AuthError::NotSigned));
    let key = RsaPrivateKey::new(&mut OsRng, 512).expect("a key");
    let auth = KalshiAuth { key_id: "a\nb".to_string(), private_key: key.clone() };
    assert_eq!(auth.sign_at("GET", "/", 1).err(), Some(AuthError::InvalidKeyId));
    let auth = KalshiAuth { key_id: "a\tb é".to_string(), private_key: key.clone() };
    assert!(auth.sign_at("GET", "/", 1).is_ok());
    let auth = KalshiAuth { key_id: "a\u{7f}".to_string(), private_key: key };
    assert_eq!(auth.sign_at("GET", "/", 1).err(), Some(AuthError::InvalidKeyId));
}

#[test]
fn client_comes_from_the_environment() {
    let key = RsaPrivateKey::new(&mut OsRng, 512).expect("a key");
    let pem = key.to_pkcs8_pem(LineEnding::LF).expect("pem");
    assert_eq!(
        KalshiClient::from_env(None, None, Some("k"), Some(&pem)).err(),
        Some(ConfigError::MissingUseDemo)
    );
    assert_eq!(
        KalshiClient::from_env(Some("true"), None, None, Some(&pem)).err(),
        Some(ConfigError::Auth { error: AuthError::MissingKeyId })
    );
    let client =
        KalshiClient::from_env(Some("  TRUE "), None, Some("k"), Some(&pem)).ok().expect("a client");
    assert!(client.use_demo);
    assert_eq!(client.base_url, "https://api.elections.kalshi.com/trade-api/v2");
    assert_eq!(client.sign_path("/portfolio/balance"), "/trade-api/v2/portfolio/balance");
    let client = KalshiClient::from_env(Some("false"), Some("http://h"), Some("k"), Some(&pem))
        .ok()
        .expect("a client");
    assert!(!client.use_demo);
    assert_eq!(client.sign_path("/a"), "/a");
    let request = client.request_at("GET", "/a", 5).expect("a request");
    assert_eq!(request.url, "http://h/a");
    let expected = client.auth.sign_at("GET", "/a", 5).expect("signed");
    assert_eq!(request.headers.signature, expected.signature);
    let now = client.request("GET", "/a").expect("a request");
    assert!(now.headers.timestamp.parse::<u64>().expect("a number") > 0);
}

#[test]
fn a_key_of_unlike_primes_signs_too() {
    let source = RsaPrivateKey::new(&mut OsRng, 1024).expect("a key");
    let q = source.primes()[0].clone();
    let key = RsaPrivateKey::from_p_q(BigUint::from(3u32), q, BigUint::from(65537u32))
        .expect("a key of unlike primes");
    let pem = key.to_pkcs8_pem(LineEnding::LF).expect("pem");
    let auth = KalshiAuth::from_env(Some("k"), Some(&pem)).ok().expect("an identity");
    let headers = auth.sign_at("GET", "/a", 5).expect("signed");
    let signer = rsa::pkcs1v15::SigningKey::<Sha256>::new(key);
    let verifier: VerifyingKey<Sha256> = signer.verifying_key();
    let bytes = BASE64.decode(&headers.signature).expect("base64");
    let signature = Signature::try_from(bytes.as_slice()).expect("a signature");
    assert!(verifier.verify(b"5GET/a", &signature).is_ok());
}
