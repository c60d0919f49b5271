//! Hashes, signatures and their hexadecimal text. The hash is SHA-256, the
//! signatures are Ed25519.

use crate::canonical;
use crate::canonical::founding_bytes;
use crate::model::{IdentityV, MemberIdentity};
use ed25519_dalek::{Signer, Verifier};
use sha2::Digest;
use vstd::prelude::*;
use vstd::string::*;
use vstd::utf8::*;

verus! {

/// The SHA-256 digest of `data`.
pub uninterp spec fn sha256_of(data: Seq<u8>) -> Seq<u8>;

/// Does Ed25519 accept `sig` as the signature of the holder of `pk` over
/// `message`?
pub uninterp spec fn ed25519_accepts(pk: Seq<u8>, message: Seq<u8>, sig: Seq<u8>) -> bool;

/// The Ed25519 signature that the holder of `secret` makes over `message`.
pub uninterp spec fn ed25519_signature(secret: Seq<u8>, message: Seq<u8>) -> Seq<u8>;

/// The Ed25519 public key of `secret`.
pub uninterp spec fn ed25519_public(secret: Seq<u8>) -> Seq<u8>;

/// `sha2::Sha256::digest`: the digest is a function of the data alone and is
/// 32 bytes long.
#[verifier::external_body]
fn sha256(data: &[u8]) -> (r: Vec<u8>)
    ensures
        r@ == sha256_of(data@),
        r@.len() == 32,
{
    sha2::Sha256::digest(data).to_vec()
}

/// `ed25519_dalek::VerifyingKey::verify`: whether the signature is accepted is
/// a function of key, message and signature. Bytes that are no key are
/// accepted for nothing.
#[verifier::external_body]
fn ed25519_verify(pk: &[u8; 32], message: &[u8], sig: &[u8; 64]) -> (r: bool)
    ensures
        r == ed25519_accepts(pk@, message@, sig@),
{
    match ed25519_dalek::VerifyingKey::from_bytes(pk) {
        Ok(key) => key.verify(message, &ed25519_dalek::Signature::from_bytes(sig)).is_ok(),
        Err(_) => false,
    }
}

/// `ed25519_dalek::SigningKey::verifying_key`: the public key is a function of
/// the secret one.
#[verifier::external_body]
fn ed25519_public_key(secret: &[u8; 32]) -> (r: [u8; 32])
    ensures
        r@ == ed25519_public(secret@),
{
    ed25519_dalek::SigningKey::from_bytes(secret).verifying_key().to_bytes()
}

/// `ed25519_dalek::SigningKey::sign`: the signature is a function of the
/// secret key and the message, is 64 bytes long, and is accepted for the public
/// key of the secret one.
#[verifier::external_body]
fn ed25519_sign(secret: &[u8; 32], message: &[u8]) -> (r: Vec<u8>)
    ensures
        r@ == ed25519_signature(secret@, message@),
        r@.len() == 64,
        ed25519_accepts(ed25519_public(secret@), message@, r@),
{
    ed25519_dalek::SigningKey::from_bytes(secret).sign(message).to_bytes().to_vec()
}

/// The lower-case hexadecimal digit of `d`.
pub open spec fn hex_digit(d: int) -> char {
    if d == 0 {
        '0'
    } else if d == 1 {
        '1'
    } else if d == 2 {
        '2'
    } else if d == 3 {
        '3'
    } else if d == 4 {
        '4'
    } else if d == 5 {
        '5'
    } else if d == 6 {
        '6'
    } else if d == 7 {
        '7'
    } else if d == 8 {
        '8'
    } else if d == 9 {
        '9'
    } else if d == 10 {
        'a'
    } else if d == 11 {
        'b'
    } else if d == 12 {
        'c'
    } else if d == 13 {
        'd'
    } else if d == 14 {
        'e'
    } else {
        'f'
    }
}

/// Two lower-case digits for each byte, the high half first.
pub open spec fn hex_text(data: Seq<u8>) -> Seq<char> {
    Seq::new(
        2 * data.len(),
        |i: int|
            if i % 2 == 0 {
                hex_digit(data[i / 2] as int / 16)
            } else {
                hex_digit(data[i / 2] as int % 16)
            },
    )
}

/// The value of a hexadecimal digit of either case.
pub open spec fn hex_value(c: u8) -> Option<int> {
    if 48 <= c <= 57 {
        Some(c - 48)
    } else if 65 <= c <= 70 {
        Some(c - 55)
    } else if 97 <= c <= 102 {
        Some(c - 87)
    } else {
        None
    }
}

/// The bytes that a hexadecimal text of either case spells; none where its
/// length is odd or a character is no digit.
pub open spec fn unhex(text: Seq<char>) -> Option<Seq<u8>> {
    let b = encode_utf8(text);
    if b.len() % 2 == 0 && (forall|i: int| 0 <= i < b.len() ==> hex_value(#[trigger] b[i]) is Some) {
        Some(
            Seq::new(
                b.len() / 2,
                |i: int| (16 * hex_value(b[2 * i])->0 + hex_value(b[2 * i + 1])->0) as u8,
            ),
        )
    } else {
        None
    }
}

/// Where two lower-case digits spell a byte, they are read back as that byte.
proof fn lemma_hex_digit(b: u8)
    ensures
        (hex_digit(b as int / 16) as nat) < 128,
        (hex_digit(b as int % 16) as nat) < 128,
        hex_value(hex_digit(b as int / 16) as u8) == Some(b as int / 16),
        hex_value(hex_digit(b as int % 16) as u8) == Some(b as int % 16),
{
}

/// What was written in hexadecimal is read back as it was.
pub proof fn hex_text_reads_back(data: Seq<u8>)
    ensures
        unhex(hex_text(data)) == Some(data),
{
    let t = hex_text(data);
    assert forall|i: int| 0 <= i < t.len() implies (#[trigger] t[i] as nat) < 128 && hex_value(
        t[i] as u8,
    ) == Some(
        if i % 2 == 0 {
            data[i / 2] as int / 16
        } else {
            data[i / 2] as int % 16
        },
    ) by {
        lemma_hex_digit(data[i / 2]);
    }
    assert(is_ascii_chars(t));
    is_ascii_chars_encode_utf8(t);
    let b = encode_utf8(t);
    assert(b =~= Seq::new(t.len(), |i: int| t[i] as u8));
    assert forall|i: int| 0 <= i < b.len() implies hex_value(#[trigger] b[i]) is Some by {
        assert(b[i] == t[i] as u8);
    }
    let back = Seq::new(
        b.len() / 2,
        |i: int| (16 * hex_value(b[2 * i])->0 + hex_value(b[2 * i + 1])->0) as u8,
    );
    assert forall|i: int| 0 <= i < data.len() implies #[trigger] back[i] == data[i] by {
        assert(b[2 * i] == t[2 * i] as u8);
        assert(b[2 * i + 1] == t[2 * i + 1] as u8);
    }
    assert(back =~= data);
}

/// `hex::encode`: two lower-case digits for each byte.
#[verifier::external_body]
pub(crate) fn hex_encode(data: &[u8]) -> (r: String)
    ensures
        r@ == hex_text(data@),
{
    hex::encode(data)
}

/// `hex::decode`: the bytes that the digits spell, or an error where the
/// length is odd or a character is no digit.
#[verifier::external_body]
pub(crate) fn hex_decode(text: &str) -> (r: Option<Vec<u8>>)
    ensures
        match r {
            Some(v) => unhex(text@) == Some(v@),
            None => unhex(text@) is None,
        },
{
    hex::decode(text).ok()
}

/// The lower-case hexadecimal SHA-256 digest of `bytes`.
pub open spec fn hash_text(bytes: Seq<u8>) -> Seq<char> {
    hex_text(sha256_of(bytes))
}

/// The lower-case hexadecimal SHA-256 digest of `bytes`.
pub fn content_hash(bytes: &[u8]) -> (r: String)
    ensures
        r@ == hash_text(bytes@),
        r@.len() == 64,
{
    let digest = sha256(bytes);
    hex_encode(digest.as_slice())
}

/// The id of the republic that this roster founds.
pub open spec fn republic_id_of(
    name: Seq<char>,
    rule_m: u8,
    rule_n: u8,
    identities: Seq<IdentityV>,
) -> Seq<char> {
    hash_text(canonical::founding_bytes_of(name, rule_m, rule_n, identities))
}

/// The id of the republic that this roster founds.
pub fn republic_id(name: &str, rule_m: u8, rule_n: u8, identities: &Vec<MemberIdentity>) -> (r:
    String)
    ensures
        r@ == republic_id_of(name@, rule_m, rule_n, identities.deep_view()),
{
    let bytes = founding_bytes(name, rule_m, rule_n, identities);
    content_hash(bytes.as_slice())
}

/// Does `sig` prove that the holder of `pk` signed `bytes`? Both are
/// hexadecimal.
#[verifier::opaque]
pub open spec fn verifies(pk: Seq<char>, bytes: Seq<u8>, sig: Seq<char>) -> bool {
    match (unhex(pk), unhex(sig)) {
        (Some(k), Some(s)) => k.len() == 32 && s.len() == 64 && ed25519_accepts(k, bytes, s),
        _ => false,
    }
}

/// The first `N` bytes of `v` as an array.
fn array_of<const N: usize>(v: &Vec<u8>) -> (r: [u8; N])
    requires
        v@.len() == N,
    ensures
        r@ == v@,
{
    let mut out: [u8; N] = [0u8; N];
    let mut i: usize = 0;
    while i < N
        invariant
            i <= N,
            v@.len() == N,
            out@.len() == N,
            forall|k: int| 0 <= k < i ==> out@[k] == v@[k],
        decreases N - i,
    {
        out[i] = v[i];
        i = i + 1;
    }
    assert(out@ =~= v@);
    out
}

/// Does `sig` prove that the holder of `pk` signed `bytes`? Both are
/// hexadecimal.
pub fn identity_verify(pk: &str, bytes: &[u8], sig: &str) -> (r: bool)
    ensures
        r == verifies(pk@, bytes@, sig@),
{
    proof {
        reveal(verifies);
    }
    match (hex_decode(pk), hex_decode(sig)) {
        (Some(k), Some(s)) => {
            if k.len() != 32 || s.len() != 64 {
                return false;
            }
            let key: [u8; 32] = array_of::<32>(&k);
            let signature: [u8; 64] = array_of::<64>(&s);
            ed25519_verify(&key, bytes, &signature)
        },
        _ => false,
    }
}

/// A member's secret signing key.
#[derive(Debug, Clone, Copy, PartialEq, Eq)]
pub struct SigningKey {
    pub secret: [u8; 32],
}

impl DeepView for SigningKey {
    type V = Seq<u8>;

    open spec fn deep_view(&self) -> Seq<u8> {
        self.secret@
    }
}

/// The signature text that the holder of `secret` makes over `bytes`.
pub open spec fn signature_text(secret: Seq<u8>, bytes: Seq<u8>) -> Seq<char> {
    hex_text(ed25519_signature(secret, bytes))
}

/// The public key of `secret`, in hexadecimal.
pub open spec fn public_text(secret: Seq<u8>) -> Seq<char> {
    hex_text(ed25519_public(secret))
}

/// The public key of a signing key, in hexadecimal.
pub fn identity_public(key: &SigningKey) -> (r: String)
    ensures
        r@ == public_text(key.deep_view()),
        r@.len() == 64,
{
    let pk = ed25519_public_key(&key.secret);
    hex_encode(&pk)
}

/// Signs `bytes`; the signature is hexadecimal, and it proves that the holder
/// of the key signed them.
pub fn identity_sign(key: &SigningKey, bytes: &[u8]) -> (r: String)
    ensures
        r@ == signature_text(key.deep_view(), bytes@),
        r@.len() == 128,
        verifies(public_text(key.deep_view()), bytes@, r@),
{
    let sig = ed25519_sign(&key.secret, bytes);
    let pk = ed25519_public_key(&key.secret);
    proof {
        reveal(verifies);
        hex_text_reads_back(sig@);
        hex_text_reads_back(pk@);
    }
    hex_encode(sig.as_slice())
}

/// A signature is believed exactly where key and signature are of their full
/// length and Ed25519 accepts the signature under the key over those very
/// bytes; what is no hexadecimal is believed for nothing.
pub proof fn only_an_accepted_signature_is_believed(
    key: Seq<u8>,
    bytes: Seq<u8>,
    sig: Seq<u8>,
    text: Seq<char>,
)
    ensures
        verifies(hex_text(key), bytes, hex_text(sig)) <==> key.len() == 32 && sig.len() == 64
            && ed25519_accepts(key, bytes, sig),
        unhex(text) is None ==> !verifies(text, bytes, hex_text(sig)) && !verifies(
            hex_text(key),
            bytes,
            text,
        ),
{
    reveal(verifies);
    hex_text_reads_back(key);
    hex_text_reads_back(sig);
}

/// A hash is written as the hexadecimal digits of the SHA-256 digest, and a
/// republic's id is the hash of what it was founded on.
pub proof fn an_id_is_the_hash_of_its_founding(
    name: Seq<char>,
    rule_m: u8,
    rule_n: u8,
    identities: Seq<IdentityV>,
)
    ensures
        unhex(republic_id_of(name, rule_m, rule_n, identities)) == Some(
            sha256_of(canonical::founding_bytes_of(name, rule_m, rule_n, identities)),
        ),
{
    hex_text_reads_back(sha256_of(canonical::founding_bytes_of(name, rule_m, rule_n, identities)));
}

} // verus!
