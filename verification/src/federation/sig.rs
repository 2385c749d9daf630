//! Hex texts and detached ed25519 signatures.

use crate::text::chars_of;
use ed25519_dalek::{Signature, Signer, SigningKey, Verifier, VerifyingKey};
use vstd::prelude::*;

verus! {

/// The lowercase hex digit of a value below sixteen.
pub open spec fn hex_digit(d: int) -> char {
    if d < 10 {
        (48 + d) as char
    } else {
        (87 + d) as char
    }
}

/// The value of a hex digit of either case.
pub open spec fn hex_value(c: char) -> Option<int> {
    if '0' <= c && c <= '9' {
        Some(c as int - 48)
    } else if 'a' <= c && c <= 'f' {
        Some(c as int - 87)
    } else if 'A' <= c && c <= 'F' {
        Some(c as int - 55)
    } else {
        None
    }
}

/// Bytes as lowercase hex, two digits each.
pub open spec fn hex_text(bytes: Seq<u8>) -> Seq<char> {
    Seq::new(
        2 * bytes.len(),
        |i: int|
            if i % 2 == 0 {
                hex_digit(bytes[i / 2] as int / 16)
            } else {
                hex_digit(bytes[i / 2] as int % 16)
            },
    )
}

/// Whether the text is pairs of hex digits.
pub open spec fn is_hex(s: Seq<char>) -> bool {
    &&& s.len() % 2 == 0
    &&& forall|i: int| 0 <= i < s.len() ==> hex_value(#[trigger] s[i]) is Some
}

/// The bytes that a hex text stands for, if it is one.
pub open spec fn hex_bytes(s: Seq<char>) -> Option<Seq<u8>> {
    if is_hex(s) {
        Some(
            Seq::new(
                s.len() / 2,
                |i: int| (16 * hex_value(s[2 * i])->0 + hex_value(s[2 * i + 1])->0) as u8,
            ),
        )
    } else {
        None
    }
}

/// **Decoding undoes encoding.**
pub proof fn law_hex_round_trip(bytes: Seq<u8>)
    ensures
        hex_bytes(hex_text(bytes)) == Some(bytes),
{
    let s = hex_text(bytes);
    assert forall|i: int| 0 <= i < s.len() implies hex_value(#[trigger] s[i]) is Some by {
        let b = bytes[i / 2] as int;
        assert(0 <= b / 16 < 16 && 0 <= b % 16 < 16);
    }
    assert forall|i: int| 0 <= i < bytes.len() implies (16 * hex_value(s[2 * i])->0 + hex_value(
        s[2 * i + 1],
    )->0) as u8 == bytes[i] by {
        let b = bytes[i] as int;
        assert((2 * i) % 2 == 0 && (2 * i) / 2 == i);
        assert((2 * i + 1) % 2 == 1 && (2 * i + 1) / 2 == i);
        assert(0 <= b / 16 < 16 && 0 <= b % 16 < 16);
        assert(hex_value(hex_digit(b / 16)) == Some(b / 16));
        assert(hex_value(hex_digit(b % 16)) == Some(b % 16));
    }
    assert(hex_bytes(s)->0 =~= bytes);
}

fn hex_digit_char(d: u8) -> (c: char)
    requires
        d < 16,
    ensures
        c == hex_digit(d as int),
{
    if d < 10 {
        (48 + d) as char
    } else {
        (87 + d) as char
    }
}

fn hex_digit_value(c: char) -> (d: Option<u8>)
    ensures
        match d {
            Some(d) => hex_value(c) == Some(d as int) && d < 16,
            None => hex_value(c) is None,
        },
{
    if '0' <= c && c <= '9' {
        Some((c as u32 - 48) as u8)
    } else if 'a' <= c && c <= 'f' {
        Some((c as u32 - 87) as u8)
    } else if 'A' <= c && c <= 'F' {
        Some((c as u32 - 55) as u8)
    } else {
        None
    }
}

/// Lowercase hex encoding.
pub fn hex_encode(bytes: &[u8]) -> (text: String)
    ensures
        text@ == hex_text(bytes@),
{
    let mut text = String::new();
    let mut i: usize = 0;
    assert(hex_text(bytes@.take(0)) =~= Seq::empty());
    while i < bytes.len()
        invariant
            i <= bytes.len(),
            text@ == hex_text(bytes@.take(i as int)),
        decreases bytes.len() - i,
    {
        let b = bytes[i];
        text.push(hex_digit_char(b / 16));
        text.push(hex_digit_char(b % 16));
        proof {
            let longer = hex_text(bytes@.take(i + 1));
            assert(longer.len() == text@.len());
            assert forall|k: int| 0 <= k < longer.len() implies longer[k] == text@[k] by {
                if k < 2 * i {
                    assert(k / 2 < i);
                } else {
                    assert(k / 2 == i);
                }
            }
            assert(text@ =~= longer);
        }
        i += 1;
    }
    assert(bytes@.take(i as int) =~= bytes@);
    text
}

/// Hex decoding; `None` on odd length or on any character that is no hex
/// digit.
pub fn hex_decode(s: &str) -> (bytes: Option<Vec<u8>>)
    ensures
        match bytes {
            Some(bytes) => hex_bytes(s@) == Some(bytes@),
            None => hex_bytes(s@) is None,
        },
{
    let chars = chars_of(s);
    if chars.len() % 2 != 0 {
        return None;
    }
    let mut bytes: Vec<u8> = Vec::new();
    let mut i: usize = 0;
    while i < chars.len()
        invariant
            i <= chars.len(),
            chars@ == s@,
            chars.len() % 2 == 0,
            i == 2 * bytes@.len(),
            forall|k: int| 0 <= k < i ==> hex_value(#[trigger] s@[k]) is Some,
            forall|k: int|
                0 <= k < bytes@.len() ==> #[trigger] bytes@[k] == (16 * hex_value(s@[2 * k])->0
                    + hex_value(s@[2 * k + 1])->0) as u8,
        decreases chars.len() - i,
    {
        let high = hex_digit_value(chars[i]);
        let low = hex_digit_value(chars[i + 1]);
        match (high, low) {
            (Some(high), Some(low)) => {
                bytes.push(16 * high + low);
            },
            _ => {
                proof {
                    assert(hex_value(s@[i as int]) is None || hex_value(s@[i + 1]) is None);
                }
                return None;
            },
        }
        i += 2;
    }
    assert(hex_bytes(s@)->0 =~= bytes@);
    Some(bytes)
}

// ---------------------------------------------------------------------------
// ed25519
// ---------------------------------------------------------------------------

/// The public key of the signing key made from a seed.
pub uninterp spec fn ed25519_public(seed: Seq<u8>) -> Seq<u8>;

/// The signature over a message by the signing key made from a seed.
pub uninterp spec fn ed25519_signature(seed: Seq<u8>, msg: Seq<u8>) -> Seq<u8>;

/// Whether a signature over a message is valid under a public key.
pub uninterp spec fn ed25519_accepts(public: Seq<u8>, msg: Seq<u8>, sig: Seq<u8>) -> bool;

/// `ed25519_dalek::SigningKey::from_bytes` and its `verifying_key`: the public
/// key is a function of the seed.
#[verifier::external_body]
pub(crate) fn public_key_of(seed: &[u8; 32]) -> (public: [u8; 32])
    ensures
        public@ == ed25519_public(seed@),
{
    SigningKey::from_bytes(seed).verifying_key().to_bytes()
}

/// `ed25519_dalek::SigningKey`'s `sign`: deterministic, so the signature is a
/// function of the seed and the message; and it is valid for that message
/// under the public key of the same seed.
#[verifier::external_body]
pub(crate) fn signature_by(seed: &[u8; 32], msg: &[u8]) -> (sig: [u8; 64])
    ensures
        sig@ == ed25519_signature(seed@, msg@),
        ed25519_accepts(ed25519_public(seed@), msg@, sig@),
{
    SigningKey::from_bytes(seed).sign(msg).to_bytes()
}

/// `ed25519_dalek::VerifyingKey`'s `verify`, under the key that
/// `VerifyingKey::from_bytes` makes of the bytes; bytes that are no key accept
/// nothing. Whether a signature is valid is a function of the key, the
/// message and the signature.
#[verifier::external_body]
pub(crate) fn is_valid_signature(public: &[u8; 32], msg: &[u8], sig: &[u8; 64]) -> (valid: bool)
    ensures
        valid == ed25519_accepts(public@, msg@, sig@),
{
    match VerifyingKey::from_bytes(public) {
        Ok(key) => key.verify(msg, &Signature::from_bytes(sig)).is_ok(),
        Err(_) => false,
    }
}

/// The first thirty-two bytes.
fn array_32(bytes: &Vec<u8>) -> (array: [u8; 32])
    requires
        bytes.len() == 32,
    ensures
        array@ == bytes@,
{
    let mut array: [u8; 32] = [0; 32];
    let mut i: usize = 0;
    while i < 32
        invariant
            i <= 32,
            bytes.len() == 32,
            forall|k: int| 0 <= k < i ==> array@[k] == bytes@[k],
        decreases 32 - i,
    {
        array[i] = bytes[i];
        i += 1;
    }
    assert(array@ =~= bytes@);
    array
}

/// The first sixty-four bytes.
fn array_64(bytes: &Vec<u8>) -> (array: [u8; 64])
    requires
        bytes.len() == 64,
    ensures
        array@ == bytes@,
{
    let mut array: [u8; 64] = [0; 64];
    let mut i: usize = 0;
    while i < 64
        invariant
            i <= 64,
            bytes.len() == 64,
            forall|k: int| 0 <= k < i ==> array@[k] == bytes@[k],
        decreases 64 - i,
    {
        array[i] = bytes[i];
        i += 1;
    }
    assert(array@ =~= bytes@);
    array
}

/// Hex key and hex signature of the right lengths, and valid for the message.
pub open spec fn detached_valid(pubkey_hex: Seq<char>, sig_hex: Seq<char>, msg: Seq<u8>) -> bool {
    match (hex_bytes(pubkey_hex), hex_bytes(sig_hex)) {
        (Some(public), Some(sig)) => public.len() == 32 && sig.len() == 64 && ed25519_accepts(
            public,
            msg,
            sig,
        ),
        _ => false,
    }
}

/// Verify a detached hex signature over `msg` with a hex public key. Any
/// malformed input simply fails verification.
pub fn verify_detached(pubkey_hex: &str, sig_hex: &str, msg: &[u8]) -> (valid: bool)
    ensures
        valid == detached_valid(pubkey_hex@, sig_hex@, msg@),
{
    let public = match hex_decode(pubkey_hex) {
        Some(public) => public,
        None => {
            return false;
        },
    };
    if public.len() != 32 {
        return false;
    }
    let sig = match hex_decode(sig_hex) {
        Some(sig) => sig,
        None => {
            return false;
        },
    };
    if sig.len() != 64 {
        return false;
    }
    is_valid_signature(&array_32(&public), msg, &array_64(&sig))
}

/// Hex public key of the signing key made from a seed.
pub fn public_key_hex_of(seed: &[u8; 32]) -> (text: String)
    ensures
        text@ == hex_text(ed25519_public(seed@)),
        ed25519_public(seed@).len() == 32,
{
    let public = public_key_of(seed);
    hex_encode(public.as_slice())
}

/// Hex signature over a message by the signing key made from a seed.
pub fn sign_detached(seed: &[u8; 32], msg: &[u8]) -> (text: String)
    ensures
        text@ == hex_text(ed25519_signature(seed@, msg@)),
        detached_valid(hex_text(ed25519_public(seed@)), text@, msg@),
{
    let public = public_key_of(seed);
    let sig = signature_by(seed, msg);
    proof {
        law_hex_round_trip(public@);
        law_hex_round_trip(sig@);
    }
    hex_encode(sig.as_slice())
}

} // verus!
