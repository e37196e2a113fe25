//! The headers by which the exchange knows who asks.

use crate::clock;
use crate::text;
use vstd::prelude::*;
use vstd::string::*;

verus! {

/// `rsa::RsaPrivateKey`, the key that requests are signed with.
#[verifier::external_type_specification]
#[verifier::external_body]
pub struct ExRsaPrivateKey(rsa::RsaPrivateKey);

/// The key that `rsa` reads from a PEM text in PKCS#8 form.
pub uninterp spec fn pkcs8_key(pem: Seq<char>) -> Option<rsa::RsaPrivateKey>;

/// The key that `rsa` reads from a PEM text in PKCS#1 form.
pub uninterp spec fn pkcs1_key(pem: Seq<char>) -> Option<rsa::RsaPrivateKey>;

/// The PKCS#1 v1.5 signature of the SHA-256 digest of a message; none where the key is too small
/// for one, or where the power that should undo the signature does not give the digest back.
pub uninterp spec fn rsa_signature(key: rsa::RsaPrivateKey, message: Seq<char>) -> Option<
    Seq<u8>,
>;

/// What the standard alphabet of base64, with padding, writes for a row of bytes.
pub uninterp spec fn base64_text(bytes: Seq<u8>) -> Seq<char>;

/// Reads a key with `rsa::pkcs8::DecodePrivateKey::from_pkcs8_pem`, which depends on the text
/// alone. The format is not restated.
#[verifier::external_body]
fn read_pkcs8(pem: &str) -> (r: Option<rsa::RsaPrivateKey>)
    ensures
        r == pkcs8_key(pem@),
{
    <rsa::RsaPrivateKey as rsa::pkcs8::DecodePrivateKey>::from_pkcs8_pem(pem).ok()
}

/// Reads a key with `rsa::pkcs1::DecodeRsaPrivateKey::from_pkcs1_pem`, which depends on the text
/// alone. The format is not restated.
#[verifier::external_body]
fn read_pkcs1(pem: &str) -> (r: Option<rsa::RsaPrivateKey>)
    ensures
        r == pkcs1_key(pem@),
{
    <rsa::RsaPrivateKey as rsa::pkcs1::DecodeRsaPrivateKey>::from_pkcs1_pem(pem).ok()
}

/// Signs the bytes of a message with `rsa::pkcs1v15::SigningKey::<sha2::Sha256>`, by `try_sign`,
/// which uses no randomness and so depends on the key and the message alone. What the key has
/// computed in advance is cleared first with `rsa::RsaPrivateKey::clear_precomputed`, so that the
/// signature is one power modulo the whole modulus: by the remainders of the primes, the time would
/// grow with how far apart these are. The scheme is not restated.
#[verifier::external_body]
fn sign_message(key: &rsa::RsaPrivateKey, message: &str) -> (r: Option<Vec<u8>>)
    ensures
        match r {
            Some(bytes) => rsa_signature(*key, message@) == Some(bytes@),
            None => rsa_signature(*key, message@) is None,
        },
{
    let mut plain = key.clone();
    plain.clear_precomputed();
    let signer = rsa::pkcs1v15::SigningKey::<sha2::Sha256>::new(plain);
    rsa::signature::Signer::try_sign(&signer, message.as_bytes())
        .ok()
        .map(|signature| rsa::signature::SignatureEncoding::to_vec(&signature))
}

/// Writes bytes in base64 with the engine `base64::engine::general_purpose::STANDARD`. Its text
/// depends on the bytes alone, and has no characters but letters, digits, `+`, `/` and `=`.
#[verifier::external_body]
fn encode_base64(bytes: &Vec<u8>) -> (r: String)
    ensures
        r@ == base64_text(bytes@),
        forall|i: int| 0 <= i < r@.len() ==> base64_char(#[trigger] r@[i]),
{
    base64::Engine::encode(&base64::engine::general_purpose::STANDARD, bytes)
}

/// Whether `reqwest::header::HeaderValue::from_str` takes a text for the value of a header: it does
/// where each byte is a tab, or at least 32 and not 127. The bytes of a character above 127 all are.
#[verifier::external_body]
fn is_header_value(s: &str) -> (r: bool)
    ensures
        r == header_value(s@),
{
    reqwest::header::HeaderValue::from_str(s).is_ok()
}

/// Whether a character can stand in base64.
pub open spec fn base64_char(c: char) -> bool {
    ('A' <= c <= 'Z') || ('a' <= c <= 'z') || ('0' <= c <= '9') || c == '+' || c == '/' || c == '='
}

/// Whether a character can stand in the value of a header.
pub open spec fn header_char(c: char) -> bool {
    (c as u32 >= 32 && c as u32 != 127) || c == '\t'
}

/// Whether a text can be the value of a header.
pub open spec fn header_value(s: Seq<char>) -> bool {
    forall|i: int| 0 <= i < s.len() ==> header_char(#[trigger] s[i])
}

/// Why a request cannot be signed.
#[derive(Clone, Copy, Debug, PartialEq, Eq, Structural)]
pub enum AuthError {
    /// There is no key identifier.
    MissingKeyId,
    /// There is no private key.
    MissingPrivateKey,
    /// The private key is in neither form.
    MalformedPrivateKey,
    /// The key makes no signature.
    NotSigned,
    /// The key identifier has characters that no header can have.
    InvalidKeyId,
}

/// Who asks: the key identifier, and the key that proves it.
pub struct KalshiAuth {
    pub key_id: String,
    pub private_key: rsa::RsaPrivateKey,
}

/// The three headers of a signed request.
#[derive(Debug)]
pub struct AuthHeaders {
    pub access_key: String,
    pub timestamp: String,
    pub signature: String,
}

impl AuthHeaders {
    /// The value of a header, by its name in lower case.
    pub fn get(&self, name: &str) -> (r: Option<&str>)
        ensures
            match r {
                Some(value) => {
                    ||| name@ == "kalshi-access-key"@ && value@ == self.access_key@
                    ||| name@ == "kalshi-access-timestamp"@ && value@ == self.timestamp@
                    ||| name@ == "kalshi-access-signature"@ && value@ == self.signature@
                },
                None => name@ != "kalshi-access-key"@ && name@ != "kalshi-access-timestamp"@ && name@
                    != "kalshi-access-signature"@,
            },
    {
        if text::same_text(name, "kalshi-access-key") {
            Some(self.access_key.as_str())
        } else if text::same_text(name, "kalshi-access-timestamp") {
            Some(self.timestamp.as_str())
        } else if text::same_text(name, "kalshi-access-signature") {
            Some(self.signature.as_str())
        } else {
            None
        }
    }
}

/// The key in a PEM text: in PKCS#8 form, or else in PKCS#1 form.
pub open spec fn private_key(pem: Seq<char>) -> Option<rsa::RsaPrivateKey> {
    match pkcs8_key(pem) {
        Some(key) => Some(key),
        None => pkcs1_key(pem),
    }
}

/// Reads the key in a PEM text.
pub fn parse_private_key(pem: &str) -> (r: Result<rsa::RsaPrivateKey, AuthError>)
    ensures
        match r {
            Ok(key) => private_key(pem@) == Some(key),
            Err(e) => private_key(pem@) is None && e == AuthError::MalformedPrivateKey,
        },
{
    match read_pkcs8(pem) {
        Some(key) => Ok(key),
        None => match read_pkcs1(pem) {
            Some(key) => Ok(key),
            None => Err(AuthError::MalformedPrivateKey),
        },
    }
}

/// What is signed: the time in milliseconds, the method in capitals, and the path.
pub open spec fn signed_text(ts_ms: u64, method_upper: Seq<char>, path: Seq<char>) -> Seq<char> {
    text::decimal(ts_ms as int) + method_upper + path
}

/// What is signed, given the method in capitals.
pub fn message_to_sign(ts_ms: u64, method_upper: &str, path: &str) -> (r: String)
    ensures
        r@ == signed_text(ts_ms, method_upper@, path@),
{
    let mut r: String = text::decimal_text(ts_ms);
    r.append(method_upper);
    r.append(path);
    r
}

proof fn lemma_decimal_is_header_value(n: int)
    requires
        0 <= n,
    ensures
        header_value(text::decimal(n)),
    decreases n,
{
    if n >= 10 {
        lemma_decimal_is_header_value(n / 10);
        let s = text::decimal(n);
        assert forall|i: int| 0 <= i < s.len() implies header_char(#[trigger] s[i]) by {
            if i < s.len() - 1 {
                assert(s[i] == text::decimal(n / 10)[i]);
            }
        }
    }
}

impl KalshiAuth {
    /// The identity, from the texts of the environment's `KALSHI_API_KEY_ID` and
    /// `KALSHI_PRIVATE_KEY`.
    pub fn from_env(key_id: Option<&str>, pem: Option<&str>) -> (r: Result<Self, AuthError>)
        ensures
            match r {
                Ok(auth) => {
                    &&& key_id is Some && auth.key_id@ == key_id->0@
                    &&& pem is Some && private_key(pem->0@) == Some(auth.private_key)
                },
                Err(e) => {
                    ||| e == AuthError::MissingKeyId && key_id is None
                    ||| e == AuthError::MissingPrivateKey && key_id is Some && pem is None
                    ||| e == AuthError::MalformedPrivateKey && key_id is Some && pem is Some
                        && private_key(pem->0@) is None
                },
            },
    {
        let key_id: String = match key_id {
            Some(key_id) => key_id.to_owned(),
            None => {
                return Err(AuthError::MissingKeyId);
            },
        };
        let pem: &str = match pem {
            Some(pem) => pem,
            None => {
                return Err(AuthError::MissingPrivateKey);
            },
        };
        match parse_private_key(pem) {
            Ok(private_key) => Ok(KalshiAuth { key_id, private_key }),
            Err(e) => Err(e),
        }
    }

    /// What the headers of a request at a given time are.
    pub open spec fn signs(
        self,
        method: Seq<char>,
        path: Seq<char>,
        ts_ms: u64,
        r: Result<AuthHeaders, AuthError>,
    ) -> bool {
        let message = signed_text(ts_ms, text::upper_case(method), path);
        match rsa_signature(self.private_key, message) {
            None => r == Err::<AuthHeaders, AuthError>(AuthError::NotSigned),
            Some(bytes) => if header_value(self.key_id@) {
                &&& r is Ok
                &&& r->Ok_0.access_key@ == self.key_id@
                &&& r->Ok_0.timestamp@ == text::decimal(ts_ms as int)
                &&& r->Ok_0.signature@ == base64_text(bytes)
            } else {
                r == Err::<AuthHeaders, AuthError>(AuthError::InvalidKeyId)
            },
        }
    }

    /// The headers of a request at a given time.
    pub fn sign_at(&self, method: &str, path: &str, ts_ms: u64) -> (r: Result<
        AuthHeaders,
        AuthError,
    >)
        ensures
            self.signs(method@, path@, ts_ms, r),
            match r {
                Ok(headers) => header_value(headers.access_key@) && header_value(
                    headers.timestamp@,
                ) && header_value(headers.signature@),
                Err(_) => true,
            },
    {
        let upper: String = text::to_upper_case(method);
        let message: String = message_to_sign(ts_ms, upper.as_str(), path);
        let bytes: Vec<u8> = match sign_message(&self.private_key, message.as_str()) {
            Some(bytes) => bytes,
            None => {
                return Err(AuthError::NotSigned);
            },
        };
        let signature: String = encode_base64(&bytes);
        if !is_header_value(self.key_id.as_str()) {
            return Err(AuthError::InvalidKeyId);
        }
        let timestamp: String = text::decimal_text(ts_ms);
        proof {
            lemma_decimal_is_header_value(ts_ms as int);
            assert forall|i: int| 0 <= i < signature@.len() implies header_char(
                #[trigger] signature@[i],
            ) by {
                assert(base64_char(signature@[i]));
            }
        }
        Ok(AuthHeaders { access_key: self.key_id.clone(), timestamp, signature })
    }

    /// The headers of a request that is made now.
    pub fn sign_request(&self, method: &str, path: &str) -> (r: Result<AuthHeaders, AuthError>)
        ensures
            exists|now: std::time::SystemTime|
                self.signs(method@, path@, clock::clock_value(#[trigger] clock::reading_millis(now)) as u64, r),
    {
        self.sign_at(method, path, clock::local_ts_ms())
    }
}

} // verus!
