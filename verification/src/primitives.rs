//! What the library takes from outside: hashing, encodings, canonical JSON and signatures.
//!
//! Every item here states what it takes on trust of an outside function. A result that a few
//! lines can state is stated; any other is given a name, and contracts speak of the name.

use vstd::prelude::*;

use crate::json::{json_tree, JsonTree};

verus! {

// ---- hashing ----

/// The SHA-256 digest of a byte string, in its 32 octets.
pub uninterp spec fn sha256_octets(bytes: Seq<u8>) -> [u8; 32];

/// The SHA-256 digest of a byte string.
pub open spec fn sha256(bytes: Seq<u8>) -> Seq<u8> {
    sha256_octets(bytes)@
}

/// `sha2::Sha256::digest`: the digest of `bytes`, named by [`sha256_octets`].
#[verifier::external_body]
pub(crate) fn digest(bytes: &[u8]) -> (hash: [u8; 32])
    ensures
        hash@ == sha256_octets(bytes@)@,
{
    <sha2::Sha256 as sha2::Digest>::digest(bytes).into()
}

/// Whether two different byte strings have one digest.
pub open spec fn collides(a: Seq<u8>, b: Seq<u8>) -> bool {
    a != b && sha256(a) == sha256(b)
}

/// What an interior tree node is the digest of: `0x01`, the left and the right hash.
pub open spec fn node_octets(left: Seq<u8>, right: Seq<u8>) -> Seq<u8> {
    seq![1u8] + left + right
}

/// The hash of an interior tree node over its two children.
pub open spec fn node_hash(left: Seq<u8>, right: Seq<u8>) -> Seq<u8> {
    sha256(node_octets(left, right))
}

/// Where two nodes of 32-octet children are the digests of one byte string, their children are
/// the same.
pub proof fn a_node_tells_its_children(
    left: Seq<u8>,
    right: Seq<u8>,
    other_left: Seq<u8>,
    other_right: Seq<u8>,
)
    requires
        left.len() == 32,
        other_left.len() == 32,
        node_octets(left, right) == node_octets(other_left, other_right),
    ensures
        left == other_left,
        right == other_right,
{
    let octets = node_octets(left, right);
    assert(octets.subrange(1, 33) =~= left);
    assert(octets.subrange(1, 33) =~= other_left);
    assert(octets.skip(33) =~= right);
    assert(octets.skip(33) =~= other_right);
}

/// `atl_core::core::merkle::hash_children`: SHA-256 over `0x01`, the left and the right hash.
pub assume_specification[ atl_core::core::merkle::hash_children ](
    left: &atl_core::core::merkle::Hash,
    right: &atl_core::core::merkle::Hash,
) -> (hash: atl_core::core::merkle::Hash)
    ensures
        hash@ == node_hash(left@, right@),
;

/// `atl_core::core::merkle::compute_leaf_hash`: SHA-256 over `0x00`, the payload hash and the
/// metadata hash.
pub assume_specification[ atl_core::core::merkle::compute_leaf_hash ](
    payload_hash: &atl_core::core::merkle::Hash,
    metadata_hash: &atl_core::core::merkle::Hash,
) -> (hash: atl_core::core::merkle::Hash)
    ensures
        hash@ == sha256(seq![0u8] + payload_hash@ + metadata_hash@),
;

/// `atl_core::compute_key_id`: SHA-256 over the raw public key.
pub assume_specification[ atl_core::compute_key_id ](public_key: &[u8; 32]) -> (id: [u8; 32])
    ensures
        id@ == sha256(public_key@),
;

// ---- `sha256:<hex>` texts ----

/// The lower-case hexadecimal digit of a value below sixteen.
pub open spec fn hex_digit(value: int) -> char {
    if value < 10 {
        (48 + value) as char
    } else {
        (87 + value) as char
    }
}

/// The value of a hexadecimal digit of either case, or -1.
pub open spec fn hex_value(digit: char) -> int {
    if '0' <= digit <= '9' {
        digit as int - 48
    } else if 'a' <= digit <= 'f' {
        digit as int - 87
    } else if 'A' <= digit <= 'F' {
        digit as int - 55
    } else {
        -1
    }
}

/// Lower-case hexadecimal, two digits per byte, high digit first.
pub open spec fn hex_text(bytes: Seq<u8>) -> Seq<char> {
    Seq::new(
        (2 * bytes.len()) as nat,
        |i: int|
            if i % 2 == 0 {
                hex_digit(bytes[i / 2] as int / 16)
            } else {
                hex_digit(bytes[i / 2] as int % 16)
            },
    )
}

/// `hex::encode` on a byte slice.
#[verifier::external_body]
pub(crate) fn hex_encode(bytes: &[u8]) -> (text: String)
    ensures
        text@ == hex_text(bytes@),
{
    hex::encode(bytes)
}

/// A hash rendered as `sha256:` and its lower-case hexadecimal digits.
pub open spec fn family_text(hash: Seq<u8>) -> Seq<char> {
    "sha256:"@ + hex_text(hash)
}

/// The 32-octet hash a `sha256:<hex>` text stands for, digits of either case.
pub open spec fn hash_of_text(text: Seq<char>) -> Option<Seq<u8>> {
    if text.len() == 71 && text.take(7) == "sha256:"@ && (forall|i: int|
        7 <= i < 71 ==> hex_value(#[trigger] text[i]) >= 0) {
        Some(
            Seq::new(
                32,
                |i: int| (16 * hex_value(text[7 + 2 * i]) + hex_value(text[8 + 2 * i])) as u8,
            ),
        )
    } else {
        None
    }
}

/// `ahl_core::parse_hash_hex`: accepts exactly the texts that stand for a hash.
pub assume_specification[ ahl_core::parse_hash_hex ](value: &str) -> (hash: ahl_core::AhlResult<
    ahl_core::Hash,
>)
    ensures
        match hash {
            Ok(h) => hash_of_text(value@) == Some(h@),
            Err(_) => hash_of_text(value@) is None,
        },
;

/// `hash` as a `sha256:<hex>` text.
pub fn hash_text(hash: &[u8; 32]) -> (text: String)
    ensures
        text@ == family_text(hash@),
{
    let digits: String = hex_encode(hash.as_slice());
    crate::text::join("sha256:", digits.as_str())
}

/// The entry id of `bytes`: their SHA-256 digest as a `sha256:<hex>` text.
pub fn entry_id_of(bytes: &[u8]) -> (id: String)
    ensures
        id@ == family_text(sha256(bytes@)),
{
    hash_text(&digest(bytes))
}

/// A rendered hash parses back to itself.
pub proof fn a_rendered_hash_parses_back(hash: Seq<u8>)
    requires
        hash.len() == 32,
    ensures
        hash_of_text(family_text(hash)) == Some(hash),
{
    reveal_strlit("sha256:");
    let text = family_text(hash);
    assert(text.len() == 71);
    assert(text.take(7) == "sha256:"@);
    assert forall|i: int| 7 <= i < 71 implies hex_value(#[trigger] text[i]) >= 0 by {
        assert(text[i] == hex_text(hash)[i - 7]);
    }
    assert forall|i: int| 0 <= i < 32 implies 16 * hex_value(text[7 + 2 * i]) + hex_value(
        text[8 + 2 * i],
    ) == #[trigger] hash[i] by {
        assert(text[7 + 2 * i] == hex_text(hash)[2 * i]);
        assert(text[8 + 2 * i] == hex_text(hash)[2 * i + 1]);
        assert((2 * i) / 2 == i && (2 * i) % 2 == 0);
        assert((2 * i + 1) / 2 == i && (2 * i + 1) % 2 == 1);
    }
    assert(hash_of_text(text)->0 =~= hash);
}

// ---- base64 ----

/// The bytes a standard, padded base64 text decodes to.
pub uninterp spec fn base64_octets(text: Seq<char>) -> Option<Seq<u8>>;

/// `base64`'s `STANDARD.decode`, named by [`base64_octets`].
#[verifier::external_body]
pub(crate) fn base64_decode(text: &str) -> (bytes: Option<Vec<u8>>)
    ensures
        match bytes {
            Some(b) => base64_octets(text@) == Some(b@),
            None => base64_octets(text@) is None,
        },
{
    base64::Engine::decode(&base64::engine::general_purpose::STANDARD, text).ok()
}

/// The standard, padded base64 text of a byte string.
pub uninterp spec fn base64_text(bytes: Seq<u8>) -> Seq<char>;

/// `base64`'s `STANDARD.encode`, named by [`base64_text`]; the text decodes back to the bytes.
#[verifier::external_body]
pub(crate) fn base64_encode(bytes: &[u8]) -> (text: String)
    ensures
        text@ == base64_text(bytes@),
        base64_octets(text@) == Some(bytes@),
{
    base64::Engine::encode(&base64::engine::general_purpose::STANDARD, bytes)
}

// ---- canonical JSON ----

/// The JCS-canonical bytes of a JSON value.
pub uninterp spec fn jcs_octets(tree: JsonTree) -> Seq<u8>;

/// `ahl_core::jcs`, named by [`jcs_octets`].
#[verifier::external_body]
pub(crate) fn jcs(value: &serde_json::Value) -> (bytes: Vec<u8>)
    ensures
        bytes@ == jcs_octets(json_tree(*value)),
{
    ahl_core::jcs(value)
}

/// `ahl_core::entry_id`: the entry id of the value's JCS-canonical bytes.
#[verifier::external_body]
pub(crate) fn envelope_entry_id(envelope: &serde_json::Value) -> (id: String)
    ensures
        id@ == family_text(sha256(jcs_octets(json_tree(*envelope)))),
{
    ahl_core::entry_id(envelope)
}

/// The text `String::from_utf8_lossy` reads from a byte string.
pub uninterp spec fn lossy_text(bytes: Seq<u8>) -> Seq<char>;

/// `String::from_utf8_lossy`, named by [`lossy_text`]; valid UTF-8 is read exactly.
#[verifier::external_body]
pub(crate) fn utf8_lossy(bytes: &[u8]) -> (text: String)
    ensures
        text@ == lossy_text(bytes@),
        vstd::utf8::valid_utf8(bytes@) ==> text@ == vstd::utf8::decode_utf8(bytes@),
{
    String::from_utf8_lossy(bytes).into_owned()
}

// ---- signatures ----

/// The raw Ed25519 public key a `base64:<raw 32 bytes>` text stands for.
pub uninterp spec fn pubkey_octets(text: Seq<char>) -> Option<Seq<u8>>;

/// `ahl_core::decode_pubkey`, the key by its raw bytes, named by [`pubkey_octets`].
#[verifier::external_body]
pub(crate) fn decode_pubkey(pubkey: &str) -> (key: Result<[u8; 32], ahl_core::AhlError>)
    ensures
        match key {
            Ok(k) => pubkey_octets(pubkey@) == Some(k@),
            Err(_) => pubkey_octets(pubkey@) is None,
        },
{
    ahl_core::decode_pubkey(pubkey).map(|key| key.to_bytes())
}

/// Whether a `base64:<raw 64 bytes>` signature over a message verifies under a raw public
/// key; `None` where the signature text or the key is malformed.
pub uninterp spec fn signature_verdict(
    key: Seq<u8>,
    message: Seq<u8>,
    signature: Seq<char>,
) -> Option<bool>;

/// `ahl_core::verify_signature` under the key with the raw bytes `key`, named by
/// [`signature_verdict`].
#[verifier::external_body]
pub(crate) fn verify_signature(key: &[u8; 32], message: &[u8], signature: &str) -> (verdict: Result<
    bool,
    ahl_core::AhlError,
>)
    ensures
        match verdict {
            Ok(v) => signature_verdict(key@, message@, signature@) == Some(v),
            Err(_) => signature_verdict(key@, message@, signature@) is None,
        },
{
    let key = ed25519_dalek::VerifyingKey::from_bytes(key).map_err(ahl_core::AhlError::PublicKey)?;
    ahl_core::verify_signature(&key, message, signature)
}

/// `ahl_core::AHL_VERSION`: the revision a governance statement must declare.
#[verifier::external_body]
pub(crate) fn ahl_version() -> (version: &'static str)
    ensures
        version@ == "0.4"@,
{
    ahl_core::AHL_VERSION
}

} // verus!
