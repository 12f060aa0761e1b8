//! The fixed adaptor metadata object and the log-tree leaf hash.

use vstd::prelude::*;

use crate::primitives::{collides, digest, sha256};
use crate::text::copy_bytes;

verus! {

/// The canonical text of the adaptor metadata object, the same for every entry.
pub const ADAPTOR_METADATA: &'static str = "{\"ahl_adaptor\":\"ahl-adaptor-atl-v1\"}";

/// The canonical bytes of the adaptor metadata object.
pub open spec fn metadata_octets() -> Seq<u8> {
    vstd::utf8::encode_utf8(ADAPTOR_METADATA@)
}

/// The log leaf of an entry: SHA-256 over a zero byte, the digest of the entry's bytes and the
/// digest of the metadata.
pub open spec fn leaf_of(entry: Seq<u8>) -> Seq<u8> {
    sha256(leaf_octets(entry))
}

/// What the log leaf of an entry is the digest of.
pub open spec fn leaf_octets(entry: Seq<u8>) -> Seq<u8> {
    seq![0u8] + sha256(entry) + sha256(metadata_octets())
}

/// Whether a digest collides between the leaves of two entries: that of their bytes, or that of
/// the leaves themselves.
pub open spec fn leaves_collide(a: Seq<u8>, b: Seq<u8>) -> bool {
    collides(a, b) || collides(leaf_octets(a), leaf_octets(b))
}

/// A log leaf commits to its entry: entries of one leaf are equal, or a digest collides.
pub proof fn a_leaf_commits_to_its_entry(a: Seq<u8>, b: Seq<u8>)
    requires
        leaf_of(a) == leaf_of(b),
    ensures
        a == b || leaves_collide(a, b),
{
    if leaf_octets(a) == leaf_octets(b) {
        assert(leaf_octets(a).subrange(1, 33) =~= sha256(a));
        assert(leaf_octets(b).subrange(1, 33) =~= sha256(b));
    }
}

/// The canonical bytes of the adaptor metadata object.
pub fn adaptor_metadata_bytes() -> (bytes: Vec<u8>)
    ensures
        bytes@ == metadata_octets(),
{
    copy_bytes(ADAPTOR_METADATA.as_bytes())
}

/// The log leaf hash of an entry.
pub fn log_leaf_hash(entry: &[u8]) -> (leaf: [u8; 32])
    ensures
        leaf@ == leaf_of(entry@),
{
    let payload: [u8; 32] = digest(entry);
    let metadata: [u8; 32] = digest(ADAPTOR_METADATA.as_bytes());
    atl_core::core::merkle::compute_leaf_hash(&payload, &metadata)
}

/// A log leaf is the digest of a zero octet, the digest of the entry and the digest of the one
/// metadata text that every entry has.
pub proof fn a_leaf_is_of_the_entry_and_the_metadata(entry: Seq<u8>)
    ensures
        leaf_of(entry) == sha256(
            seq![0u8] + sha256(entry) + sha256(
                vstd::utf8::encode_utf8("{\"ahl_adaptor\":\"ahl-adaptor-atl-v1\"}"@),
            ),
        ),
        leaf_of(entry).len() == 32,
{
}

} // verus!
