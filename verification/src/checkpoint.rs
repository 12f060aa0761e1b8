//! Checkpoints: what one signs, whose key it verifies under, and how it is admitted.
//!
//! A submitted checkpoint is asked two questions. Does it verify under the manifest version
//! active for its own tree size? Then it is a member of the series. Does it verify under the
//! keys that some rotation retired, at a size beyond the rotating manifest? Then it anchors
//! that rotation. It can be both; where it is neither, it is refused with the failure it earned
//! under the first.

use std::collections::BTreeMap;

use vstd::prelude::*;

use crate::config::{Config, ConfigView};
use crate::error::{gives, refuses, Fault, MirrorError, MirrorResult};
use crate::frontier::{a_divergence_has_a_floor, diverges_at, floor_of};
use crate::geometry::{hashes_view, root_of};
use crate::ingest::{
    inclusion_of, only_proven_bytes_become_canonical, path_of, promote_entry, verify_inclusion_for,
};
use crate::manifest::{
    chain, is_chain, states_view, versions, versions_form_one_chain, versions_of,
    GovernanceState, GovernanceView,
};
use crate::metadata::leaf_of;
use crate::octets::{
    an_octet_is_its_digit, le_octets, octet_range, octets_have_their_count,
    octets_tell_values_apart, push_le,
};
use crate::primitives::{hash_of_text, signature_verdict, verify_signature};
use crate::proofs::{
    consistency_path, consistency_verdict, inclusion_verdict, verify_consistency, ConsistencyProof,
};
use crate::series::{
    a_found_anchor_is_listed, anchor_at, anchor_checkpoints, anchor_for, comes_before,
    holds_root, in_weak_order, member_at, member_at_finds, order_is_total, rank,
    rank_parts_the_list,
};
use crate::store::{
    a_promotion_takes_the_next_index, a_whole_store_stays_whole, anchoring_forgets_nothing,
    envelopes_of, leaves_of, recording_forgets_nothing, the_earliest_anchor_is_served,
    the_series_only_grows, EntryView, InsertOutcome, Store, StoreView,
};
use crate::text::{bytes_view, copy_bytes, same_bytes, same_hash, same_text, texts_view};
use crate::timestamp::checkpoint_time_nanos;
use crate::tree::{
    complete_nodes, missing, whole_material_has_no_gap, TreeMaterial, TreeView, MAX_LEAVES,
};

pub use crate::frontier::{
    compute_gap_free_frontier, itub, series_view, CheckpointState, FrontierStop,
    ReportedCheckpoint, SeriesView,
};
pub use crate::series::{Checkpoint, CheckpointView};
pub use crate::timestamp::{parse_checkpoint_time, render_checkpoint_time};

verus! {

/// The largest tree size a store can address.
pub const MAX_TREE_SIZE: u64 = MAX_LEAVES;

/// How many octets a checkpoint signs.
pub const CHECKPOINT_BLOB_LEN: usize = 98;

// ---- the signed blob ----

/// The octets a signed blob begins with: `ATL-Protocol-v1-CP`.
pub open spec fn checkpoint_magic() -> Seq<u8> {
    seq![
        65u8, 84u8, 76u8, 45u8, 80u8, 114u8, 111u8, 116u8, 111u8, 99u8, 111u8, 108u8, 45u8, 118u8,
        49u8, 45u8, 67u8, 80u8,
    ]
}

/// The blob of an origin, a size, a time and a root: the magic, the origin, the size and the
/// time in eight little-endian octets each, and the root.
pub open spec fn blob_of(origin: Seq<u8>, tree_size: u64, nanos: u64, root: Seq<u8>) -> Seq<u8> {
    checkpoint_magic() + origin + le_octets(tree_size as nat, 8) + le_octets(nanos as nat, 8) + root
}

/// The blob a checkpoint signs, or why it has none: its log id or its root is no hash text, or
/// its time is no checkpoint time.
pub open spec fn signed_blob(cp: CheckpointView) -> Result<Seq<u8>, Fault> {
    match hash_of_text(cp.log_id) {
        None => Err(Fault::Ahl),
        Some(origin) => match hash_of_text(cp.root_hash) {
            None => Err(Fault::Ahl),
            Some(root) => match checkpoint_time_nanos(cp.checkpoint_time) {
                Err(fault) => Err(fault),
                Ok(nanos) => Ok(blob_of(origin, cp.tree_size, nanos, root)),
            },
        },
    }
}

/// The octets a signed blob begins with.
fn push_magic(bytes: &mut Vec<u8>)
    ensures
        final(bytes)@ == old(bytes)@ + checkpoint_magic(),
{
    let magic: [u8; 18] = [
        65, 84, 76, 45, 80, 114, 111, 116, 111, 99, 111, 108, 45, 118, 49, 45, 67, 80,
    ];
    let ghost before = bytes@;
    push_all(bytes, magic.as_slice());
    assert(magic@ =~= checkpoint_magic());
}

/// Append bytes.
fn push_all(bytes: &mut Vec<u8>, more: &[u8])
    ensures
        final(bytes)@ == old(bytes)@ + more@,
{
    let ghost before = bytes@;
    let mut i: usize = 0;
    while i < more.len()
        invariant
            i <= more@.len(),
            bytes@ == before + more@.take(i as int),
        decreases more.len() - i,
    {
        bytes.push(more[i]);
        assert(bytes@ =~= before + more@.take(i + 1));
        i += 1;
    }
    assert(more@.take(i as int) =~= more@);
}

/// Assemble the blob a checkpoint signs.
pub fn checkpoint_blob(cp: &Checkpoint) -> (blob: MirrorResult<[u8; 98]>)
    ensures
        match blob {
            Ok(octets) => gives(signed_blob(cp@), octets@),
            Err(error) => refuses(signed_blob(cp@), error),
        },
{
    let origin: [u8; 32] = match ahl_core::parse_hash_hex(cp.log_id.as_str()) {
        Ok(origin) => origin,
        Err(error) => {
            return Err(MirrorError::Ahl(error));
        },
    };
    let root: [u8; 32] = match ahl_core::parse_hash_hex(cp.root_hash.as_str()) {
        Ok(root) => root,
        Err(error) => {
            return Err(MirrorError::Ahl(error));
        },
    };
    let nanos: u64 = parse_checkpoint_time(cp.checkpoint_time.as_str())?;
    let mut bytes: Vec<u8> = Vec::new();
    push_magic(&mut bytes);
    push_all(&mut bytes, origin.as_slice());
    push_le(&mut bytes, cp.tree_size);
    push_le(&mut bytes, nanos);
    push_all(&mut bytes, root.as_slice());
    proof {
        octets_have_their_count(cp.tree_size as nat, 8);
        octets_have_their_count(nanos as nat, 8);
        assert(bytes@ =~= blob_of(origin@, cp.tree_size, nanos, root@));
        assert(bytes@.len() == 98);
    }
    let mut blob: [u8; 98] = [0u8; 98];
    let mut i: usize = 0;
    while i < 98
        invariant
            i <= 98,
            bytes@.len() == 98,
            forall|k: int| 0 <= k < i ==> blob@[k] == bytes@[k],
        decreases 98 - i,
    {
        blob[i] = bytes[i];
        i += 1;
    }
    assert(blob@ =~= bytes@);
    Ok(blob)
}

/// A blob commits to its origin, its size, its time and its root: no other four have it.
pub proof fn a_blob_commits_to_what_it_signs(
    origin: Seq<u8>,
    tree_size: u64,
    nanos: u64,
    root: Seq<u8>,
    origin2: Seq<u8>,
    tree_size2: u64,
    nanos2: u64,
    root2: Seq<u8>,
)
    requires
        origin.len() == 32,
        origin2.len() == 32,
        root.len() == 32,
        root2.len() == 32,
        blob_of(origin, tree_size, nanos, root) == blob_of(origin2, tree_size2, nanos2, root2),
    ensures
        origin == origin2,
        tree_size == tree_size2,
        nanos == nanos2,
        root == root2,
        blob_of(origin, tree_size, nanos, root).len() == 98,
{
    let a = blob_of(origin, tree_size, nanos, root);
    let b = blob_of(origin2, tree_size2, nanos2, root2);
    assert(octet_range(8) == 0x1_0000_0000_0000_0000) by {
        reveal_with_fuel(octet_range, 9);
    }
    octets_have_their_count(tree_size as nat, 8);
    octets_have_their_count(nanos as nat, 8);
    octets_have_their_count(tree_size2 as nat, 8);
    octets_have_their_count(nanos2 as nat, 8);
    assert(a.subrange(18, 50) =~= origin);
    assert(b.subrange(18, 50) =~= origin2);
    assert(a.subrange(50, 58) =~= le_octets(tree_size as nat, 8));
    assert(b.subrange(50, 58) =~= le_octets(tree_size2 as nat, 8));
    assert(a.subrange(58, 66) =~= le_octets(nanos as nat, 8));
    assert(b.subrange(58, 66) =~= le_octets(nanos2 as nat, 8));
    assert(a.subrange(66, 98) =~= root);
    assert(b.subrange(66, 98) =~= root2);
    octets_tell_values_apart(tree_size as nat, tree_size2 as nat, 8);
    octets_tell_values_apart(nanos as nat, nanos2 as nat, 8);
}

// ---- the signature ----

/// Raw bytes that were carried, if any were.
pub open spec fn raw_view(raw: Option<&[u8]>) -> Option<Seq<u8>> {
    match raw {
        Some(bytes) => Some(bytes@),
        None => None,
    }
}

/// What a checkpoint signs under a log, where it names that log, has a blob, and any blob
/// carried beside it is that blob.
pub open spec fn identified(cp: CheckpointView, raw: Option<Seq<u8>>, log_id: Seq<char>) -> Result<
    Seq<u8>,
    Fault,
> {
    if cp.log_id != log_id {
        Err(Fault::WrongLogId { expected: log_id, got: cp.log_id })
    } else {
        match signed_blob(cp) {
            Err(fault) => Err(fault),
            Ok(blob) => match raw {
                Some(bytes) if bytes != blob => Err(Fault::RawBlobMismatch),
                _ => Ok(blob),
            },
        }
    }
}

/// Whether a checkpoint of a log verifies under a key: `Ok`, or the first check it fails.
pub open spec fn signature_judged(
    cp: CheckpointView,
    raw: Option<Seq<u8>>,
    log_id: Seq<char>,
    key: Seq<u8>,
) -> Result<(), Fault> {
    match identified(cp, raw, log_id) {
        Err(fault) => Err(fault),
        Ok(blob) => match signature_verdict(key, blob, cp.signature) {
            None => Err(Fault::Ahl),
            Some(verified) => if verified {
                Ok(())
            } else {
                Err(Fault::SignatureInvalid { key_id: cp.key_id })
            },
        },
    }
}

/// Check a checkpoint's log id and the blob carried beside it; what it signs, where they are
/// right.
pub fn check_identity(cp: &Checkpoint, raw: Option<&[u8]>, log_id: &str) -> (checked: MirrorResult<
    [u8; 98],
>)
    ensures
        match checked {
            Ok(blob) => gives(identified(cp@, raw_view(raw), log_id@), blob@),
            Err(error) => refuses(identified(cp@, raw_view(raw), log_id@), error),
        },
{
    if !same_text(cp.log_id.as_str(), log_id) {
        return Err(
            MirrorError::WrongLogId { expected: log_id.to_owned(), got: cp.log_id.clone() },
        );
    }
    let blob: [u8; 98] = checkpoint_blob(cp)?;
    if let Some(bytes) = raw {
        if !same_bytes(bytes, blob.as_slice()) {
            return Err(MirrorError::RawBlobMismatch);
        }
    }
    Ok(blob)
}

/// Refuse a checkpoint whose signature was found not to verify.
pub fn settle_signature(cp: &Checkpoint, verified: bool) -> (settled: MirrorResult<()>)
    ensures
        match settled {
            Ok(()) => verified,
            Err(error) => !verified && error@ == (Fault::SignatureInvalid { key_id: cp@.key_id }),
        },
{
    if verified {
        Ok(())
    } else {
        Err(MirrorError::SignatureInvalid { key_id: cp.key_id.clone() })
    }
}

/// Verify a checkpoint of a log under a raw Ed25519 public key.
pub fn verify_checkpoint_signature(
    cp: &Checkpoint,
    raw: Option<&[u8]>,
    log_id: &str,
    key: &[u8; 32],
) -> (verified: MirrorResult<()>)
    ensures
        match verified {
            Ok(()) => gives(signature_judged(cp@, raw_view(raw), log_id@, key@), ()),
            Err(error) => refuses(signature_judged(cp@, raw_view(raw), log_id@, key@), error),
        },
{
    let blob: [u8; 98] = check_identity(cp, raw, log_id)?;
    match verify_signature(key, blob.as_slice(), cp.signature.as_str()) {
        Ok(verdict) => settle_signature(cp, verdict),
        Err(error) => Err(MirrorError::Ahl(error)),
    }
}

// ---- consistency ----

/// Whether a consistency path links two checkpoints, or why that cannot be judged: a root is no
/// hash text, there is no path, or the path is structurally impossible.
pub open spec fn consistency_judged(
    from: CheckpointView,
    to: CheckpointView,
    path: Result<Seq<Seq<u8>>, Fault>,
) -> Result<bool, Fault> {
    match hash_of_text(from.root_hash) {
        None => Err(Fault::Ahl),
        Some(from_root) => match hash_of_text(to.root_hash) {
            None => Err(Fault::Ahl),
            Some(to_root) => match path {
                Err(fault) => Err(fault),
                Ok(hashes) => match consistency_verdict(
                    from.tree_size as nat,
                    to.tree_size as nat,
                    hashes,
                    from_root,
                    to_root,
                ) {
                    None => Err(Fault::Atl),
                    Some(links) => Ok(links),
                },
            },
        },
    }
}

/// The consistency path over a list of leaves: empty where one size is the other or the older
/// tree is empty; refused where the sizes are the wrong way round or the leaves do not reach.
pub open spec fn path_over(leaves: Seq<Seq<u8>>, from: u64, to: u64) -> Result<
    Seq<Seq<u8>>,
    Fault,
> {
    if from > to {
        Err(Fault::Atl)
    } else if from == to || from == 0 {
        Ok(Seq::empty())
    } else if to > leaves.len() {
        Err(Fault::Atl)
    } else {
        Ok(consistency_path(leaves.take(to as int), from as nat))
    }
}

/// Verify that a checkpoint's tree is a prefix of another's, from the leaves of the larger one.
pub fn verify_series_consistency(
    from_cp: &Checkpoint,
    to_cp: &Checkpoint,
    leaf_hashes: &Vec<[u8; 32]>,
) -> (verdict: MirrorResult<bool>)
    requires
        leaf_hashes@.len() <= MAX_LEAVES,
    ensures
        match verdict {
            Ok(links) => gives(
                consistency_judged(
                    from_cp@,
                    to_cp@,
                    path_over(hashes_view(leaf_hashes@), from_cp.tree_size, to_cp.tree_size),
                ),
                links,
            ),
            Err(error) => refuses(
                consistency_judged(
                    from_cp@,
                    to_cp@,
                    path_over(hashes_view(leaf_hashes@), from_cp.tree_size, to_cp.tree_size),
                ),
                error,
            ),
        },
{
    let (from_root, to_root): ([u8; 32], [u8; 32]) = parse_roots(from_cp, to_cp)?;
    let from: u64 = from_cp.tree_size;
    let to: u64 = to_cp.tree_size;
    let path: Vec<[u8; 32]> = if from <= to && (from == to || from == 0) {
        let none: Vec<[u8; 32]> = Vec::new();
        assert(hashes_view(none@) =~= Seq::<Seq<u8>>::empty());
        none
    } else {
        let tree: TreeMaterial = TreeMaterial::over(leaf_hashes);
        if from < to && to > tree.len() {
            let _ = tree.open(0, to)?;
        }
        proof {
            if from <= to {
                whole_material_links(tree, from as nat, to as nat);
            }
        }
        let (opened, _): (ConsistencyProof, crate::proofs::TreeReadCost) = tree.consistency_proof(
            from,
            to,
        )?;
        opened.path
    };
    match verify_consistency(from, to, &path, &from_root, &to_root) {
        Ok(links) => Ok(links),
        Err(error) => Err(MirrorError::Atl(error)),
    }
}

/// The roots of two checkpoints, the older one's first.
fn parse_roots(from_cp: &Checkpoint, to_cp: &Checkpoint) -> (roots: MirrorResult<
    ([u8; 32], [u8; 32]),
>)
    ensures
        match roots {
            Ok((from_root, to_root)) => hash_of_text(from_cp@.root_hash) == Some(from_root@)
                && hash_of_text(to_cp@.root_hash) == Some(to_root@),
            Err(error) => error@ == Fault::Ahl && (hash_of_text(from_cp@.root_hash) is None
                || hash_of_text(to_cp@.root_hash) is None),
        },
{
    let from_root: [u8; 32] = match ahl_core::parse_hash_hex(from_cp.root_hash.as_str()) {
        Ok(root) => root,
        Err(error) => {
            return Err(MirrorError::Ahl(error));
        },
    };
    match ahl_core::parse_hash_hex(to_cp.root_hash.as_str()) {
        Ok(to_root) => Ok((from_root, to_root)),
        Err(error) => Err(MirrorError::Ahl(error)),
    }
}

/// Whole tree material opens every consistency path.
proof fn whole_material_links(tree: TreeMaterial, from: nat, to: nat)
    requires
        tree.wf(),
        tree@.held == complete_nodes(tree@.leaves.len()),
        from <= to <= tree@.leaves.len(),
    ensures
        tree@.linked(from, to) == Ok::<Seq<Seq<u8>>, Fault>(
            consistency_path(tree@.leaves.take(to as int), from),
        ),
{
    crate::proofs::whole_material_opens_consistency(tree@, from, 0, to, true);
}

// ---- the visible prefix ----

/// A staged entry to promote with a checkpoint, on an inclusion proof under it.
#[derive(Debug, Clone)]
pub struct PendingPromotion {
    /// The staged entry's id.
    pub entry_id: String,
    /// Its claimed position.
    pub leaf_index: u64,
    /// The inclusion path, leaf to root, as `sha256:<hex>` texts.
    pub inclusion_path: Vec<String>,
}

/// A [`PendingPromotion`] with its texts as character sequences.
pub ghost struct PendingView {
    pub entry_id: Seq<char>,
    pub leaf_index: u64,
    pub inclusion_path: Seq<Seq<char>>,
}

impl View for PendingPromotion {
    type V = PendingView;

    open spec fn view(&self) -> PendingView {
        PendingView {
            entry_id: self.entry_id@,
            leaf_index: self.leaf_index,
            inclusion_path: texts_view(self.inclusion_path@),
        }
    }
}

/// A list of pending promotions by their views.
pub open spec fn pending_view(list: Seq<PendingPromotion>) -> Seq<PendingView> {
    Seq::new(list.len(), |i: int| list[i]@)
}

impl StoreView {
    /// The bytes that pending promotions put at indexes the store does not reach, each on an
    /// inclusion proof under a claimed root: the first claim on an index counts, and a claim
    /// beyond the target or below the store's own entries is not looked at.
    pub open spec fn overlaid(self, pending: Seq<PendingView>, target: u64, root: Seq<u8>) -> Result<
        Map<u64, Seq<u8>>,
        Fault,
    >
        decreases pending.len(),
    {
        if pending.len() == 0 {
            Ok(Map::empty())
        } else {
            match self.overlaid(pending.drop_last(), target, root) {
                Err(fault) => Err(fault),
                Ok(before) => {
                    let p = pending.last();
                    if p.leaf_index >= target || p.leaf_index < self.window(0, target as int).len()
                        || before.contains_key(p.leaf_index) {
                        Ok(before)
                    } else if !self.staged.contains_key(p.entry_id) {
                        Err(Fault::NotStaged { entry_id: p.entry_id })
                    } else {
                        match inclusion_of(
                            self.staged[p.entry_id],
                            p.leaf_index,
                            target,
                            p.inclusion_path,
                            root,
                        ) {
                            Err(fault) => Err(fault),
                            Ok(false) => Err(
                                Fault::InclusionProofInvalid {
                                    entry_id: p.entry_id,
                                    leaf_index: p.leaf_index,
                                    tree_size: target,
                                },
                            ),
                            Ok(true) => Ok(
                                before.insert(p.leaf_index, self.staged[p.entry_id]),
                            ),
                        }
                    }
                },
            }
        }
    }

    /// The entries that can be read for a checkpoint: the canonical ones below its size, and
    /// beyond them the overlaid ones for as long as none is missing between. A size that no store
    /// can address is refused before anything is looked at.
    pub open spec fn visible(self, pending: Seq<PendingView>, target: u64, root: Seq<u8>) -> Result<
        Seq<Seq<u8>>,
        Fault,
    > {
        if target > MAX_TREE_SIZE {
            Err(Fault::IndexOverflow { what: "to_index"@ })
        } else {
            match self.overlaid(pending, target, root) {
                Err(fault) => Err(fault),
                Ok(overlay) => {
                    let canonical = envelopes_of(self.window(0, target as int));
                    Ok(canonical + run_of(overlay, canonical.len(), target as nat))
                },
            }
        }
    }
}

/// The overlaid bytes at consecutive indexes from `next` on, up to the first gap.
pub open spec fn run_of(overlay: Map<u64, Seq<u8>>, next: nat, target: nat) -> Seq<Seq<u8>>
    decreases target - next,
{
    if next >= target || !overlay.contains_key(next as u64) {
        Seq::empty()
    } else {
        seq![overlay[next as u64]] + run_of(overlay, next + 1, target)
    }
}

/// A refused promotion within a list stands for the whole list.
proof fn a_refused_claim_stands(
    store: StoreView,
    pending: Seq<PendingView>,
    target: u64,
    root: Seq<u8>,
    count: int,
)
    requires
        0 <= count <= pending.len(),
        store.overlaid(pending.take(count), target, root) is Err,
    ensures
        store.overlaid(pending, target, root) == store.overlaid(
            pending.take(count),
            target,
            root,
        ),
    decreases pending.len(),
{
    if count < pending.len() {
        assert(pending.drop_last().take(count) =~= pending.take(count));
        a_refused_claim_stands(store, pending.drop_last(), target, root, count);
    } else {
        assert(pending.take(count) =~= pending);
    }
}

/// Collect the bytes that pending promotions put beyond the store's own entries.
fn overlay_pending(
    store: &Store,
    pending: &Vec<PendingPromotion>,
    target_tree_size: u64,
    canonical_len: u64,
    claimed_root: &[u8; 32],
) -> (overlay: MirrorResult<BTreeMap<u64, Vec<u8>>>)
    requires
        store.wf(),
        canonical_len == store@.window(0, target_tree_size as int).len(),
    ensures
        match overlay {
            Ok(bytes) => gives(
                store@.overlaid(pending_view(pending@), target_tree_size, claimed_root@),
                bytes@.map_values(|b: Vec<u8>| b@),
            ),
            Err(error) => refuses(
                store@.overlaid(pending_view(pending@), target_tree_size, claimed_root@),
                error,
            ),
        },
{
    broadcast use vstd::std_specs::btree::group_btree_axioms;

    let ghost listed = pending_view(pending@);
    let mut overlay: BTreeMap<u64, Vec<u8>> = BTreeMap::new();
    let mut i: usize = 0;
    assert(overlay@.map_values(|b: Vec<u8>| b@) =~= Map::<u64, Seq<u8>>::empty());
    while i < pending.len()
        invariant
            store.wf(),
            canonical_len == store@.window(0, target_tree_size as int).len(),
            i <= pending@.len(),
            listed == pending_view(pending@),
            gives(
                store@.overlaid(listed.take(i as int), target_tree_size, claimed_root@),
                overlay@.map_values(|b: Vec<u8>| b@),
            ),
        decreases pending.len() - i,
    {
        let p: &PendingPromotion = &pending[i];
        proof {
            assert(listed.take(i + 1).drop_last() =~= listed.take(i as int));
            assert(listed.take(i + 1).last() == p@);
            if store@.overlaid(listed.take(i + 1), target_tree_size, claimed_root@) is Err {
                a_refused_claim_stands(store@, listed, target_tree_size, claimed_root@, i + 1);
            }
        }
        if p.leaf_index < target_tree_size && p.leaf_index >= canonical_len
            && !overlay.contains_key(&p.leaf_index) {
            let bytes: Vec<u8> = match store.get_staged(p.entry_id.as_str())? {
                Some(bytes) => bytes,
                None => {
                    return Err(MirrorError::NotStaged { entry_id: p.entry_id.clone() });
                },
            };
            if !verify_inclusion_for(
                bytes.as_slice(),
                p.leaf_index,
                target_tree_size,
                &p.inclusion_path,
                claimed_root,
            )? {
                return Err(
                    MirrorError::InclusionProofInvalid {
                        entry_id: p.entry_id.clone(),
                        leaf_index: p.leaf_index,
                        tree_size: target_tree_size,
                    },
                );
            }
            let ghost before = overlay@;
            let ghost held = bytes@;
            overlay.insert(p.leaf_index, bytes);
            assert(overlay@.map_values(|b: Vec<u8>| b@) =~= before.map_values(
                |b: Vec<u8>| b@,
            ).insert(p.leaf_index, held));
        }
        i += 1;
    }
    assert(listed.take(i as int) =~= listed);
    Ok(overlay)
}

/// The entries that can be read for a checkpoint: canonical storage, and pending promotions
/// whose inclusion proofs open the claimed root. Nothing is promoted here, and every list is as
/// long as what is in hand, never as long as a claim.
pub fn build_visible_prefix(
    store: &Store,
    pending: &Vec<PendingPromotion>,
    target_tree_size: u64,
    claimed_root: &[u8; 32],
) -> (prefix: MirrorResult<Vec<Vec<u8>>>)
    requires
        store.wf(),
    ensures
        match prefix {
            Ok(entries) => gives(
                store@.visible(pending_view(pending@), target_tree_size, claimed_root@),
                bytes_view(entries@),
            ),
            Err(error) => refuses(
                store@.visible(pending_view(pending@), target_tree_size, claimed_root@),
                error,
            ),
        },
{
    broadcast use vstd::std_specs::btree::group_btree_axioms;

    let mut prefix: Vec<Vec<u8>> = store.get_entries_range(0, target_tree_size)?;
    let ghost canonical = bytes_view(prefix@);
    assert(canonical.len() == prefix@.len());
    proof {
        store.is_valid();
        assert(store@.window(0, target_tree_size as int).len() <= store@.entries.len());
    }
    let canonical_len: u64 = prefix.len() as u64;
    let overlay: BTreeMap<u64, Vec<u8>> = overlay_pending(
        store,
        pending,
        target_tree_size,
        canonical_len,
        claimed_root,
    )?;
    let ghost claims = overlay@.map_values(|b: Vec<u8>| b@);
    let mut next: u64 = canonical_len;
    let mut open: bool = true;
    assert(canonical + run_of(claims, canonical_len as nat, target_tree_size as nat) == bytes_view(
        prefix@,
    ) + run_of(claims, next as nat, target_tree_size as nat));
    while open && next < target_tree_size
        invariant
            next <= target_tree_size || next == canonical_len,
            canonical_len <= target_tree_size,
            claims == overlay@.map_values(|b: Vec<u8>| b@),
            canonical + run_of(claims, canonical_len as nat, target_tree_size as nat)
                == bytes_view(prefix@) + run_of(claims, next as nat, target_tree_size as nat),
            !open ==> !claims.contains_key(next),
        decreases
            target_tree_size - next,
            (if open {
                1int
            } else {
                0int
            }),
    {
        match overlay.get(&next) {
            None => {
                open = false;
            },
            Some(bytes) => {
                let ghost before = bytes_view(prefix@);
                prefix.push(copy_bytes(bytes.as_slice()));
                proof {
                    assert(claims[next] == bytes@);
                    assert(bytes_view(prefix@) =~= before.push(bytes@));
                    assert(before + run_of(claims, next as nat, target_tree_size as nat)
                        =~= bytes_view(prefix@) + run_of(
                        claims,
                        (next + 1) as nat,
                        target_tree_size as nat,
                    ));
                }
                next = next + 1;
            },
        }
    }
    assert(bytes_view(prefix@) + run_of(claims, next as nat, target_tree_size as nat)
        =~= bytes_view(prefix@));
    Ok(prefix)
}

// ---- rotations ----

/// Whether a checkpoint anchors the rotation from `outgoing` to the version at a manifest
/// entry index, and if not, why not: its size must be beyond the index, and it must verify
/// under a key of the version that is retired.
pub open spec fn anchor_reason(
    outgoing: GovernanceView,
    index: u64,
    log_id: Seq<char>,
    cp: CheckpointView,
    raw: Option<Seq<u8>>,
) -> Option<Seq<char>> {
    if cp.tree_size <= index {
        Some("the checkpoint's tree_size is not greater than the manifest entry index"@)
    } else {
        match verified_under(outgoing, log_id, cp, raw) {
            Ok(()) => None,
            Err(_) => Some(
                "the checkpoint does not verify under a log key of the version preceding the rotating one"@,
            ),
        }
    }
}

/// Whether a checkpoint verifies under the signing key that a governance version has for it.
pub open spec fn verified_under(
    governance: GovernanceView,
    log_id: Seq<char>,
    cp: CheckpointView,
    raw: Option<Seq<u8>>,
) -> Result<(), Fault> {
    match governance.log_key(cp.key_id, cp.tree_size) {
        Err(fault) => Err(fault),
        Ok(key) => signature_judged(cp, raw, log_id, key),
    }
}

/// Whether the last of a list of versions rotates the one before it.
pub open spec fn last_rotates(versions: Seq<GovernanceView>) -> bool {
    versions.len() >= 2 && versions.last().rotates(versions[versions.len() - 2])
}

/// The rotations among versions that a checkpoint anchors, by manifest entry index.
pub open spec fn anchors_of(
    versions: Seq<GovernanceView>,
    log_id: Seq<char>,
    cp: CheckpointView,
    raw: Option<Seq<u8>>,
) -> Seq<u64>
    decreases versions.len(),
{
    if versions.len() < 2 {
        Seq::empty()
    } else {
        let before = anchors_of(versions.drop_last(), log_id, cp, raw);
        let index = versions.last().governing_manifest_entry_index;
        if last_rotates(versions) && anchor_reason(
            versions[versions.len() - 2],
            index,
            log_id,
            cp,
            raw,
        ) is None {
            before.push(index)
        } else {
            before
        }
    }
}

/// Why a checkpoint does not anchor the rotation that was named.
pub open spec fn named_reason(
    versions: Seq<GovernanceView>,
    log_id: Seq<char>,
    cp: CheckpointView,
    raw: Option<Seq<u8>>,
    named: u64,
) -> Seq<char>
    decreases versions.len(),
{
    if versions.len() < 2 {
        "the manifest version at that entry index is not a governance-key rotation of its predecessor"@
    } else {
        let index = versions.last().governing_manifest_entry_index;
        let reason = anchor_reason(versions[versions.len() - 2], index, log_id, cp, raw);
        if last_rotates(versions) && index == named && reason is Some {
            reason->0
        } else {
            named_reason(versions.drop_last(), log_id, cp, raw, named)
        }
    }
}

/// The rotations a checkpoint anchors; refused where one was named and is not among them.
/// Naming one adds nothing and takes nothing away.
pub open spec fn anchors_judged(
    versions: Seq<GovernanceView>,
    log_id: Seq<char>,
    cp: CheckpointView,
    raw: Option<Seq<u8>>,
    named: Option<u64>,
) -> Result<Seq<u64>, Fault> {
    let found = anchors_of(versions, log_id, cp, raw);
    match named {
        Some(index) if !found.contains(index) => Err(
            Fault::NotRotationMaterial {
                tree_size: cp.tree_size,
                manifest_entry_index: index,
                reason: named_reason(versions, log_id, cp, raw, index),
            },
        ),
        _ => Ok(found),
    }
}

/// Verify a checkpoint under the signing key that a governance version has for it.
fn verify_under(
    governance: &GovernanceState,
    log_id: &str,
    cp: &Checkpoint,
    raw: Option<&[u8]>,
) -> (verified: MirrorResult<()>)
    ensures
        match verified {
            Ok(()) => gives(verified_under(governance@, log_id@, cp@, raw_view(raw)), ()),
            Err(error) => refuses(
                verified_under(governance@, log_id@, cp@, raw_view(raw)),
                error,
            ),
        },
{
    let key: [u8; 32] = governance.resolve_log_key(cp.key_id.as_str(), cp.tree_size)?;
    verify_checkpoint_signature(cp, raw, log_id, &key)
}

/// Why a checkpoint does not anchor the rotation from `outgoing`, or `None` where it does.
fn check_anchor(
    outgoing: &GovernanceState,
    index: u64,
    log_id: &str,
    cp: &Checkpoint,
    raw: Option<&[u8]>,
) -> (reason: Option<&'static str>)
    ensures
        match reason {
            Some(why) => anchor_reason(outgoing@, index, log_id@, cp@, raw_view(raw)) == Some(why@),
            None => anchor_reason(outgoing@, index, log_id@, cp@, raw_view(raw)) is None,
        },
{
    if cp.tree_size <= index {
        return Some("the checkpoint's tree_size is not greater than the manifest entry index");
    }
    match verify_under(outgoing, log_id, cp, raw) {
        Ok(()) => None,
        Err(_) => Some(
            "the checkpoint does not verify under a log key of the version preceding the rotating one",
        ),
    }
}

/// Whether a list holds an index.
fn holds(list: &Vec<u64>, index: u64) -> (held: bool)
    ensures
        held == list@.contains(index),
{
    let mut i: usize = 0;
    while i < list.len()
        invariant
            i <= list@.len(),
            forall|k: int| 0 <= k < i ==> list@[k] != index,
        decreases list.len() - i,
    {
        if list[i] == index {
            return true;
        }
        i += 1;
    }
    false
}

/// Judge which rotations a checkpoint anchors.
pub fn rotation_anchors_for(
    versions: &Vec<GovernanceState>,
    config: &Config,
    cp: &Checkpoint,
    raw: Option<&[u8]>,
    named: Option<u64>,
) -> (anchored: MirrorResult<Vec<u64>>)
    ensures
        match anchored {
            Ok(indexes) => gives(
                anchors_judged(
                    states_view(versions@),
                    config@.log_id,
                    cp@,
                    raw_view(raw),
                    named,
                ),
                indexes@,
            ),
            Err(error) => refuses(
                anchors_judged(
                    states_view(versions@),
                    config@.log_id,
                    cp@,
                    raw_view(raw),
                    named,
                ),
                error,
            ),
        },
{
    let ghost listed = states_view(versions@);
    let ghost log_id = config@.log_id;
    let mut anchored: Vec<u64> = Vec::new();
    let mut reason: &'static str =
        "the manifest version at that entry index is not a governance-key rotation of its predecessor";
    let mut i: usize = 1;
    proof {
        if versions@.len() > 0 {
            assert(listed.take(1).len() < 2);
        }
    }
    while i < versions.len()
        invariant
            listed == states_view(versions@),
            log_id == config@.log_id,
            1 <= i,
            i <= versions@.len() || versions@.len() == 0,
            versions@.len() > 0 ==> anchored@ == anchors_of(
                listed.take(i as int),
                log_id,
                cp@,
                raw_view(raw),
            ),
            versions@.len() == 0 ==> anchored@.len() == 0,
            versions@.len() > 0 && named is Some ==> reason@ == named_reason(
                listed.take(i as int),
                log_id,
                cp@,
                raw_view(raw),
                named->0,
            ),
            versions@.len() == 0 ==> reason@
                == "the manifest version at that entry index is not a governance-key rotation of its predecessor"@,
        decreases versions.len() - i,
    {
        proof {
            let now = listed.take(i + 1);
            assert(now.drop_last() =~= listed.take(i as int));
            assert(now.last() == versions@[i as int]@);
            assert(now[now.len() - 2] == versions@[i - 1]@);
        }
        if versions[i].rotates(&versions[i - 1]) {
            let index: u64 = versions[i].governing_manifest_entry_index();
            match check_anchor(&versions[i - 1], index, config.log_id.as_str(), cp, raw) {
                None => {
                    anchored.push(index);
                },
                Some(why) => {
                    if let Some(asked) = named {
                        if asked == index {
                            reason = why;
                        }
                    }
                },
            }
        }
        i += 1;
    }
    proof {
        if versions@.len() > 0 {
            assert(listed.take(i as int) =~= listed);
        } else {
            assert(anchored@ =~= anchors_of(listed, log_id, cp@, raw_view(raw)));
        }
    }
    if let Some(manifest_entry_index) = named {
        if !holds(&anchored, manifest_entry_index) {
            return Err(
                MirrorError::NotRotationMaterial {
                    tree_size: cp.tree_size,
                    manifest_entry_index,
                    reason,
                },
            );
        }
    }
    Ok(anchored)
}

// ---- admission ----

/// What a submitted checkpoint was admitted as. The two are independent: it can be both.
#[derive(Debug, Clone, PartialEq, Eq)]
pub struct Admission {
    /// Whether it entered the series.
    pub series_member: bool,
    /// The rotations it anchors, by the rotating manifest's entry index, ascending; also those
    /// for which an earlier anchor is held and this one was not recorded.
    pub rotation_anchors: Vec<u64>,
}

/// An [`Admission`] with its indexes as a sequence.
#[verifier::ext_equal]
pub ghost struct AdmissionView {
    pub series_member: bool,
    pub rotation_anchors: Seq<u64>,
}

impl View for Admission {
    type V = AdmissionView;

    open spec fn view(&self) -> AdmissionView {
        AdmissionView {
            series_member: self.series_member,
            rotation_anchors: self.rotation_anchors@,
        }
    }
}

/// What a checkpoint is admitted as, given the versions of the entries visible for it: both
/// questions are asked, and where neither is answered it is refused with the failure it earned
/// under the version active for its size.
pub open spec fn admission_under(
    versions: Seq<GovernanceView>,
    log_id: Seq<char>,
    cp: CheckpointView,
    raw: Option<Seq<u8>>,
    named: Option<u64>,
) -> Result<AdmissionView, Fault> {
    let ordinary = verified_under(versions.last(), log_id, cp, raw);
    match anchors_judged(versions, log_id, cp, raw, named) {
        Err(fault) => Err(fault),
        Ok(anchors) => match ordinary {
            Err(fault) if anchors.len() == 0 => Err(fault),
            _ => Ok(
                AdmissionView { series_member: ordinary is Ok, rotation_anchors: anchors },
            ),
        },
    }
}

impl StoreView {
    /// What a submitted checkpoint is admitted as, or why it is refused; nothing is changed.
    pub open spec fn judging(
        self,
        config: ConfigView,
        cp: CheckpointView,
        raw: Option<Seq<u8>>,
        pending: Seq<PendingView>,
        named: Option<u64>,
    ) -> Result<AdmissionView, Fault> {
        if cp.tree_size > MAX_TREE_SIZE {
            Err(Fault::TreeSizeUnrepresentable { tree_size: cp.tree_size, max: MAX_TREE_SIZE })
        } else {
            match hash_of_text(cp.root_hash) {
                None => Err(Fault::Ahl),
                Some(root) => match self.tree.gap(
                    0,
                    self.window(0, cp.tree_size as int).len(),
                ) {
                    Some(node) => Err(missing(node)),
                    None => match self.visible(pending, cp.tree_size, root) {
                        Err(fault) => Err(fault),
                        Ok(prefix) => match versions_of(prefix, config) {
                            Err(fault) => Err(fault),
                            Ok(versions) => admission_under(
                                versions,
                                config.log_id,
                                cp,
                                raw,
                                named,
                            ),
                        },
                    },
                },
            }
        }
    }

    /// The store after promoting pending entries in order, each on its proof.
    pub open spec fn promoting_all(self, cp: CheckpointView, pending: Seq<PendingView>) -> Result<
        StoreView,
        Fault,
    >
        decreases pending.len(),
    {
        if pending.len() == 0 {
            Ok(self)
        } else {
            match self.promoting_all(cp, pending.drop_last()) {
                Err(fault) => Err(fault),
                Ok(before) => match before.proving(
                    cp,
                    pending.last().entry_id,
                    pending.last().leaf_index,
                    pending.last().inclusion_path,
                ) {
                    Ok((after, _)) => Ok(after),
                    Err(fault) => Err(fault),
                },
            }
        }
    }

    /// The store after a checkpoint is admitted: the pending entries are promoted, the root is
    /// confirmed where the store now reaches the checkpoint, and the checkpoint is recorded as
    /// what it was admitted as.
    pub open spec fn committing(
        self,
        cp: CheckpointView,
        pending: Seq<PendingView>,
        admission: AdmissionView,
    ) -> Result<StoreView, Fault> {
        match self.promoting_all(cp, pending) {
            Err(fault) => Err(fault),
            Ok(after) => match after.confirming(cp) {
                Err(fault) => Err(fault),
                Ok(()) => after.admitting(cp, admission.series_member, admission.rotation_anchors),
            },
        }
    }

    /// Confirming a checkpoint's root against the entries, where they reach it.
    pub open spec fn confirming(self, cp: CheckpointView) -> Result<(), Fault> {
        if cp.tree_size > self.entries.len() {
            Ok(())
        } else {
            match self.root_at(cp.tree_size as nat) {
                Err(fault) => Err(fault),
                Ok(root) => if hash_of_text(cp.root_hash) == Some(root) {
                    Ok(())
                } else {
                    Err(Fault::CheckpointRootMismatch { tree_size: cp.tree_size })
                },
            }
        }
    }

    /// What submitting a checkpoint does: judge it, then commit.
    pub open spec fn ingesting(
        self,
        config: ConfigView,
        cp: CheckpointView,
        raw: Option<Seq<u8>>,
        pending: Seq<PendingView>,
        named: Option<u64>,
    ) -> Result<(StoreView, AdmissionView), Fault> {
        match self.judging(config, cp, raw, pending, named) {
            Err(fault) => Err(fault),
            Ok(admission) => match self.committing(cp, pending, admission) {
                Err(fault) => Err(fault),
                Ok(after) => Ok((after, admission)),
            },
        }
    }
}

/// Judge what a checkpoint is admitted as, given the versions of the entries visible for it.
pub fn settle_admission(
    versions: &Vec<GovernanceState>,
    config: &Config,
    cp: &Checkpoint,
    raw: Option<&[u8]>,
    named: Option<u64>,
) -> (settled: MirrorResult<Admission>)
    requires
        versions@.len() > 0,
    ensures
        match settled {
            Ok(admission) => gives(
                admission_under(
                    states_view(versions@),
                    config@.log_id,
                    cp@,
                    raw_view(raw),
                    named,
                ),
                admission@,
            ),
            Err(error) => refuses(
                admission_under(
                    states_view(versions@),
                    config@.log_id,
                    cp@,
                    raw_view(raw),
                    named,
                ),
                error,
            ),
        },
{
    let active: &GovernanceState = &versions[versions.len() - 1];
    assert(states_view(versions@).last() == active@);
    let ordinary: MirrorResult<()> = verify_under(active, config.log_id.as_str(), cp, raw);
    let rotation_anchors: Vec<u64> = rotation_anchors_for(versions, config, cp, raw, named)?;
    match ordinary {
        Ok(()) => Ok(Admission { series_member: true, rotation_anchors }),
        Err(error) => {
            if rotation_anchors.len() == 0 {
                return Err(error);
            }
            Ok(Admission { series_member: false, rotation_anchors })
        },
    }
}

/// Judge a submitted checkpoint; nothing is changed.
fn judge_checkpoint(
    store: &Store,
    config: &Config,
    cp: &Checkpoint,
    raw: Option<&[u8]>,
    pending: &Vec<PendingPromotion>,
    named: Option<u64>,
) -> (judged: MirrorResult<Admission>)
    requires
        store.wf(),
    ensures
        match judged {
            Ok(admission) => {
                &&& gives(
                    store@.judging(config@, cp@, raw_view(raw), pending_view(pending@), named),
                    admission@,
                )
                &&& forall|i: int|
                    0 <= i < admission.rotation_anchors@.len()
                        ==> #[trigger] admission.rotation_anchors@[i] <= MAX_LEAVES
            },
            Err(error) => refuses(
                store@.judging(config@, cp@, raw_view(raw), pending_view(pending@), named),
                error,
            ),
        },
{
    if cp.tree_size > MAX_TREE_SIZE {
        return Err(
            MirrorError::TreeSizeUnrepresentable { tree_size: cp.tree_size, max: MAX_TREE_SIZE },
        );
    }
    let claimed_root: [u8; 32] = match ahl_core::parse_hash_hex(cp.root_hash.as_str()) {
        Ok(root) => root,
        Err(error) => {
            return Err(MirrorError::Ahl(error));
        },
    };
    let held: u64 = store.count_entries(0, cp.tree_size)?;
    proof {
        store.is_valid();
        assert(held <= store@.entries.len());
    }
    if let Some((level, node_index)) = store.tree().find_gap(0, held) {
        return Err(MirrorError::TreeMaterialMissing { level, node_index });
    }
    let prefix: Vec<Vec<u8>> = build_visible_prefix(store, pending, cp.tree_size, &claimed_root)?;
    let listed: Vec<GovernanceState> = versions(&prefix, config)?;
    assert(states_view(listed@).len() == listed@.len());
    proof {
        let visible = bytes_view(prefix@);
        a_run_stays_below(
            store@.overlaid(pending_view(pending@), cp.tree_size, claimed_root@)->Ok_0,
            envelopes_of(store@.window(0, cp.tree_size as int)).len(),
            cp.tree_size as nat,
        );
        assert(visible.len() <= cp.tree_size);
        versions_form_one_chain(visible, config@);
        anchors_are_versions(states_view(listed@), config@.log_id, cp@, raw_view(raw));
    }
    settle_admission(&listed, config, cp, raw, named)
}

/// A run ends at the target or before.
proof fn a_run_stays_below(overlay: Map<u64, Seq<u8>>, next: nat, target: nat)
    requires
        next <= target,
    ensures
        next + run_of(overlay, next, target).len() <= target,
    decreases target - next,
{
    if next < target && overlay.contains_key(next as u64) {
        a_run_stays_below(overlay, next + 1, target);
    }
}

/// Every anchored rotation is at a version's manifest entry index.
proof fn anchors_are_versions(
    versions: Seq<GovernanceView>,
    log_id: Seq<char>,
    cp: CheckpointView,
    raw: Option<Seq<u8>>,
)
    ensures
        forall|i: int|
            0 <= i < anchors_of(versions, log_id, cp, raw).len() ==> exists|k: int|
                1 <= k < versions.len() && (#[trigger] versions[k]).governing_manifest_entry_index
                    == #[trigger] anchors_of(versions, log_id, cp, raw)[i] && cp.tree_size
                    > versions[k].governing_manifest_entry_index && versions[k].rotates(
                    versions[k - 1],
                ),
    decreases versions.len(),
{
    if versions.len() >= 2 {
        let rest = versions.drop_last();
        anchors_are_versions(rest, log_id, cp, raw);
        let found = anchors_of(versions, log_id, cp, raw);
        let before = anchors_of(rest, log_id, cp, raw);
        assert forall|i: int| 0 <= i < found.len() implies exists|k: int|
            1 <= k < versions.len() && (#[trigger] versions[k]).governing_manifest_entry_index
                == #[trigger] found[i] && cp.tree_size > versions[k].governing_manifest_entry_index
                && versions[k].rotates(versions[k - 1]) by {
            if i < before.len() {
                assert(found[i] == before[i]);
                let k = choose|k: int|
                    1 <= k < rest.len() && (#[trigger] rest[k]).governing_manifest_entry_index
                        == before[i] && cp.tree_size > rest[k].governing_manifest_entry_index
                        && rest[k].rotates(rest[k - 1]);
                assert(versions[k] == rest[k] && versions[k - 1] == rest[k - 1]);
            } else {
                let k = versions.len() - 1;
                assert(versions[k].governing_manifest_entry_index == found[i]);
            }
        }
    }
}

/// Commit an admitted checkpoint: all of it, or nothing.
fn commit_checkpoint(
    store: &mut Store,
    cp: &Checkpoint,
    pending: &Vec<PendingPromotion>,
    admission: &Admission,
) -> (committed: MirrorResult<()>)
    requires
        old(store).wf(),
        cp.tree_size <= MAX_TREE_SIZE,
        hash_of_text(cp@.root_hash) is Some,
        forall|i: int|
            0 <= i < admission.rotation_anchors@.len()
                ==> #[trigger] admission.rotation_anchors@[i] <= MAX_LEAVES,
    ensures
        final(store).wf(),
        match committed {
            Ok(()) => gives(
                old(store)@.committing(cp@, pending_view(pending@), admission@),
                final(store)@,
            ),
            Err(error) => refuses(
                old(store)@.committing(cp@, pending_view(pending@), admission@),
                error,
            ) && final(store)@ == old(store)@,
        },
{
    let base: u64 = store.len();
    let ghost before = store@;
    proof {
        store.is_valid();
        retracting_nothing_changes_nothing(before);
    }
    match promote_pending(store, cp, pending) {
        Ok(()) => {},
        Err(error) => {
            store.retract(base);
            return Err(error);
        },
    }
    match confirm_root(store, cp) {
        Ok(()) => {},
        Err(error) => {
            store.retract(base);
            return Err(error);
        },
    }
    match store.record(cp, admission.series_member, &admission.rotation_anchors) {
        Ok(()) => Ok(()),
        Err(error) => {
            store.retract(base);
            Err(error)
        },
    }
}

/// Promote pending entries in order, up to the first that is refused.
fn promote_pending(store: &mut Store, cp: &Checkpoint, pending: &Vec<PendingPromotion>) -> (promoted:
    MirrorResult<()>)
    requires
        old(store).wf(),
    ensures
        final(store).wf(),
        final(store)@.entries.len() >= old(store)@.entries.len(),
        final(store)@.retracted(old(store)@.entries.len()) == old(store)@.retracted(
            old(store)@.entries.len(),
        ),
        match promoted {
            Ok(()) => gives(
                old(store)@.promoting_all(cp@, pending_view(pending@)),
                final(store)@,
            ),
            Err(error) => refuses(
                old(store)@.promoting_all(cp@, pending_view(pending@)),
                error,
            ),
        },
{
    let ghost before = store@;
    let ghost base = store@.entries.len();
    let ghost listed = pending_view(pending@);
    let mut i: usize = 0;
    while i < pending.len()
        invariant
            store.wf(),
            i <= pending@.len(),
            listed == pending_view(pending@),
            before == old(store)@,
            base == before.entries.len(),
            store@.entries.len() >= base,
            store@.retracted(base) == before.retracted(base),
            gives(before.promoting_all(cp@, listed.take(i as int)), store@),
        decreases pending.len() - i,
    {
        let p: &PendingPromotion = &pending[i];
        let ghost now = store@;
        proof {
            store.is_valid();
            assert(leaves_of(now.entries).len() == now.entries.len());
            assert(listed.take(i + 1).drop_last() =~= listed.take(i as int));
            assert(listed.take(i + 1).last() == p@);
        }
        match promote_entry(store, cp, p.entry_id.as_str(), p.leaf_index, &p.inclusion_path) {
            Ok(_) => {
                proof {
                    a_promotion_is_retracted(now, p.leaf_index, p.entry_id@, base);
                }
            },
            Err(error) => {
                proof {
                    a_refused_promotion_stands(before, cp@, listed, i + 1);
                }
                return Err(error);
            },
        }
        i += 1;
    }
    assert(listed.take(i as int) =~= listed);
    Ok(())
}

/// Confirm a checkpoint's root against the entries, where they reach it.
fn confirm_root(store: &Store, cp: &Checkpoint) -> (confirmed: MirrorResult<()>)
    requires
        store.wf(),
        hash_of_text(cp@.root_hash) is Some,
    ensures
        match confirmed {
            Ok(()) => gives(store@.confirming(cp@), ()),
            Err(error) => refuses(store@.confirming(cp@), error),
        },
{
    if cp.tree_size > store.len() {
        return Ok(());
    }
    let root: [u8; 32] = store.log_root(cp.tree_size)?;
    match ahl_core::parse_hash_hex(cp.root_hash.as_str()) {
        Ok(claimed) => {
            if same_hash(&root, &claimed) {
                Ok(())
            } else {
                Err(MirrorError::CheckpointRootMismatch { tree_size: cp.tree_size })
            }
        },
        Err(error) => Err(MirrorError::Ahl(error)),
    }
}

/// Submit a checkpoint, with staged entries to promote on proofs under it and, where the
/// submitter names one, the rotation it is offered for. It is admitted whole, or the store is
/// as it was.
pub fn ingest_checkpoint(
    store: &mut Store,
    config: &Config,
    cp: &Checkpoint,
    raw: Option<&[u8]>,
    entries_to_promote: &Vec<PendingPromotion>,
    rotation_for: Option<u64>,
) -> (ingested: MirrorResult<Admission>)
    requires
        old(store).wf(),
    ensures
        final(store).wf(),
        match ingested {
            Ok(admission) => gives(
                old(store)@.ingesting(
                    config@,
                    cp@,
                    raw_view(raw),
                    pending_view(entries_to_promote@),
                    rotation_for,
                ),
                (final(store)@, admission@),
            ),
            Err(error) => refuses(
                old(store)@.ingesting(
                    config@,
                    cp@,
                    raw_view(raw),
                    pending_view(entries_to_promote@),
                    rotation_for,
                ),
                error,
            ) && final(store)@ == old(store)@,
        },
{
    let admission: Admission = judge_checkpoint(
        store,
        config,
        cp,
        raw,
        entries_to_promote,
        rotation_for,
    )?;
    commit_checkpoint(store, cp, entries_to_promote, &admission)?;
    Ok(admission)
}

/// A refused promotion within a list stands for the whole list.
proof fn a_refused_promotion_stands(
    store: StoreView,
    cp: CheckpointView,
    pending: Seq<PendingView>,
    count: int,
)
    requires
        0 <= count <= pending.len(),
        store.promoting_all(cp, pending.take(count)) is Err,
    ensures
        store.promoting_all(cp, pending) == store.promoting_all(cp, pending.take(count)),
    decreases pending.len(),
{
    if count < pending.len() {
        assert(pending.drop_last().take(count) =~= pending.take(count));
        a_refused_promotion_stands(store, cp, pending.drop_last(), count);
    } else {
        assert(pending.take(count) =~= pending);
    }
}

/// Retracting to what is held changes nothing.
proof fn retracting_nothing_changes_nothing(store: StoreView)
    requires
        store.valid(),
    ensures
        store.retracted(store.entries.len()) == store,
{
    let same = store.retracted(store.entries.len());
    assert(store.tree.leaves.len() == store.entries.len());
    assert(same.entries =~= store.entries);
    assert(same.tree.leaves =~= store.tree.leaves);
    assert(same.tree.held =~= store.tree.held);
}

/// Retracting takes back a promotion.
proof fn a_promotion_is_retracted(store: StoreView, index: u64, id: Seq<char>, base: nat)
    requires
        base <= store.entries.len(),
        store.tree.leaves.len() == store.entries.len(),
    ensures
        store.promoting(index, id) matches Ok((after, _)) ==> after.entries.len() >= base
            && after.retracted(base) == store.retracted(base),
{
    if let Ok((after, InsertOutcome::Inserted)) = store.promoting(index, id) {
        let a = after.retracted(base);
        let b = store.retracted(base);
        assert(a.entries =~= b.entries);
        assert(a.tree.leaves =~= b.tree.leaves);
        assert forall|node: (nat, nat)| complete_nodes(base).contains(node) implies complete_nodes(
            store.tree.leaves.len(),
        ).contains(node) by {}
        assert(a.tree.held =~= b.tree.held);
    }
}

// ---- laws ----

/// A checkpoint is admitted as a member of the series, as an anchor, or as both; never as
/// neither.
pub proof fn an_admission_is_for_something(
    versions: Seq<GovernanceView>,
    log_id: Seq<char>,
    cp: CheckpointView,
    raw: Option<Seq<u8>>,
    named: Option<u64>,
)
    ensures
        match admission_under(versions, log_id, cp, raw, named) {
            Ok(admission) => {
                &&& admission.series_member || admission.rotation_anchors.len() > 0
                &&& admission.series_member <==> verified_under(
                    versions.last(),
                    log_id,
                    cp,
                    raw,
                ) is Ok
            },
            Err(fault) => verified_under(versions.last(), log_id, cp, raw) == Err::<(), Fault>(
                fault,
            ) || named is Some,
        },
{
}

/// Naming a rotation narrows nothing: whoever names one and is admitted is admitted exactly as
/// without a name.
pub proof fn naming_a_rotation_narrows_nothing(
    versions: Seq<GovernanceView>,
    log_id: Seq<char>,
    cp: CheckpointView,
    raw: Option<Seq<u8>>,
    named: u64,
)
    ensures
        admission_under(versions, log_id, cp, raw, Some(named)) is Ok ==> admission_under(
            versions,
            log_id,
            cp,
            raw,
            Some(named),
        ) == admission_under(versions, log_id, cp, raw, None),
{
}

/// A checkpoint anchors exactly the rotations of the chain that lie below its size and whose
/// retired version it verifies under, and they are listed in ascending order.
pub proof fn anchors_are_exactly_the_retired_rotations(
    versions: Seq<GovernanceView>,
    log_id: Seq<char>,
    cp: CheckpointView,
    raw: Option<Seq<u8>>,
    count: int,
)
    requires
        is_chain(versions, count),
    ensures
        forall|index: u64| #[trigger]
            anchors_of(versions, log_id, cp, raw).contains(index) <==> exists|k: int|
                anchors_version(versions, log_id, cp, raw, index, k),
        forall|i: int, j: int|
            0 <= i < j < anchors_of(versions, log_id, cp, raw).len() ==> #[trigger] anchors_of(
                versions,
                log_id,
                cp,
                raw,
            )[i] < #[trigger] anchors_of(versions, log_id, cp, raw)[j],
    decreases versions.len(),
{
    let found = anchors_of(versions, log_id, cp, raw);
    if versions.len() >= 2 {
        let rest = versions.drop_last();
        let before = anchors_of(rest, log_id, cp, raw);
        let last = versions.len() - 1;
        let newest = versions.last().governing_manifest_entry_index;
        assert(is_chain(rest, count)) by {
            assert forall|i: int| 0 <= i < rest.len() implies #[trigger] rest[i]
                == versions[i] by {}
        }
        anchors_are_exactly_the_retired_rotations(rest, log_id, cp, raw, count);
        assert forall|index: u64| before.contains(index) implies index < newest by {
            let k = choose|k: int| anchors_version(rest, log_id, cp, raw, index, k);
            assert(versions[k].governing_manifest_entry_index
                < versions[last].governing_manifest_entry_index);
        }
        assert forall|index: u64| #[trigger] found.contains(index) <==> exists|k: int|
            anchors_version(versions, log_id, cp, raw, index, k) by {
            if before.contains(index) {
                let k = choose|k: int| anchors_version(rest, log_id, cp, raw, index, k);
                assert(anchors_version(versions, log_id, cp, raw, index, k));
                let m = choose|m: int| 0 <= m < before.len() && before[m] == index;
                assert(found[m] == index);
            }
            if found.contains(index) && !before.contains(index) {
                let m = choose|m: int| 0 <= m < found.len() && found[m] == index;
                if m < before.len() {
                    assert(before[m] == index);
                }
                assert(anchors_version(versions, log_id, cp, raw, index, last));
            }
            if exists|k: int| anchors_version(versions, log_id, cp, raw, index, k) {
                let k = choose|k: int| anchors_version(versions, log_id, cp, raw, index, k);
                if k < last {
                    assert(anchors_version(rest, log_id, cp, raw, index, k));
                    assert(before.contains(index));
                } else {
                    assert(found[found.len() - 1] == index);
                }
            }
        }
        assert forall|i: int, j: int| 0 <= i < j < found.len() implies #[trigger] found[i]
            < #[trigger] found[j] by {
            if j < before.len() {
                assert(before[i] < before[j]);
            } else {
                assert(before.contains(before[i]));
            }
        }
    } else {
        assert forall|index: u64, k: int| !anchors_version(
            versions,
            log_id,
            cp,
            raw,
            index,
            k,
        ) by {}
    }
}

/// Whether the version at a place rotates its predecessor at a manifest entry index, and a
/// checkpoint anchors that.
pub open spec fn anchors_version(
    versions: Seq<GovernanceView>,
    log_id: Seq<char>,
    cp: CheckpointView,
    raw: Option<Seq<u8>>,
    index: u64,
    k: int,
) -> bool {
    &&& 1 <= k < versions.len()
    &&& versions[k].governing_manifest_entry_index == index
    &&& versions[k].rotates(versions[k - 1])
    &&& index < cp.tree_size
    &&& verified_under(versions[k - 1], log_id, cp, raw) is Ok
}

/// What a submitted checkpoint leaves alone: every entry stays at its index, every staged
/// candidate stays, and where it is no member of the series the series is as it was.
pub proof fn ingestion_only_adds(
    store: StoreView,
    config: ConfigView,
    cp: CheckpointView,
    raw: Option<Seq<u8>>,
    pending: Seq<PendingView>,
    named: Option<u64>,
)
    ensures
        store.ingesting(config, cp, raw, pending, named) matches Ok((after, admission)) ==> {
            &&& after.staged == store.staged
            &&& after.entries.len() >= store.entries.len()
            &&& after.entries.take(store.entries.len() as int) == store.entries
            &&& !admission.series_member ==> after.checkpoints == store.checkpoints
            &&& admission.rotation_anchors.len() == 0 ==> after.anchors == store.anchors
                && after.superseded == store.superseded
        },
{
    if let Ok((after, admission)) = store.ingesting(config, cp, raw, pending, named) {
        promotions_only_append(store, cp, pending);
        let promoted = store.promoting_all(cp, pending)->Ok_0;
        let recorded = if admission.series_member {
            promoted.recording(cp)->Ok_0.0
        } else {
            promoted
        };
        anchoring_adds_anchors_only(recorded, admission.rotation_anchors, cp);
    }
}

/// Promotions leave the staged candidates, the series, the anchors, the superseded ones and every
/// earlier entry as they were.
proof fn promotions_only_append(store: StoreView, cp: CheckpointView, pending: Seq<PendingView>)
    ensures
        store.promoting_all(cp, pending) matches Ok(after) ==> {
            &&& after.staged == store.staged
            &&& after.checkpoints == store.checkpoints
            &&& after.anchors == store.anchors
            &&& after.superseded == store.superseded
            &&& after.entries.len() >= store.entries.len()
            &&& after.entries.take(store.entries.len() as int) == store.entries
        },
    decreases pending.len(),
{
    if pending.len() == 0 {
        assert(store.entries.take(store.entries.len() as int) =~= store.entries);
    } else {
        promotions_only_append(store, cp, pending.drop_last());
        if let Ok(after) = store.promoting_all(cp, pending) {
            let before = store.promoting_all(cp, pending.drop_last())->Ok_0;
            assert(after.entries.take(store.entries.len() as int) =~= before.entries.take(
                store.entries.len() as int,
            ));
        }
    }
}

/// Recording anchors changes the anchors and the superseded ones only.
proof fn anchoring_adds_anchors_only(store: StoreView, indexes: Seq<u64>, cp: CheckpointView)
    ensures
        store.anchoring_all(indexes, cp) matches Ok(after) ==> after == (StoreView {
            anchors: after.anchors,
            superseded: after.superseded,
            ..store
        }) && (indexes.len() == 0 ==> after == store),
    decreases indexes.len(),
{
    if indexes.len() > 0 {
        anchoring_adds_anchors_only(store, indexes.drop_last(), cp);
    }
}

/// Recording anchors forgets nothing that is authenticated, and holds the root.
proof fn anchoring_all_forgets_nothing(store: StoreView, indexes: Seq<u64>, cp: CheckpointView)
    requires
        in_weak_order(anchor_checkpoints(store.anchors)),
        in_weak_order(store.superseded),
    ensures
        store.anchoring_all(indexes, cp) matches Ok(after) ==> {
            &&& forall|x: CheckpointView| #[trigger]
                store.authenticated().contains(x) ==> after.authenticated().contains(x)
            &&& indexes.len() > 0 ==> holds_root(after.authenticated(), cp)
            &&& in_weak_order(anchor_checkpoints(after.anchors))
            &&& in_weak_order(after.superseded)
        },
    decreases indexes.len(),
{
    if indexes.len() > 0 {
        anchoring_all_forgets_nothing(store, indexes.drop_last(), cp);
        if let Ok(before) = store.anchoring_all(indexes.drop_last(), cp) {
            anchoring_forgets_nothing(before, indexes.last(), cp);
        }
    }
}

/// Nothing that is authenticated is ever forgotten: a submission keeps every checkpoint that was
/// held, and the root of the submitted one is held for its size, also where an earlier anchor
/// supersedes it.
pub proof fn a_submission_forgets_nothing(
    store: StoreView,
    config: ConfigView,
    cp: CheckpointView,
    raw: Option<Seq<u8>>,
    pending: Seq<PendingView>,
    named: Option<u64>,
)
    requires
        store.valid(),
    ensures
        store.ingesting(config, cp, raw, pending, named) matches Ok((after, _)) ==> {
            &&& forall|x: CheckpointView| #[trigger]
                store.authenticated().contains(x) ==> after.authenticated().contains(x)
            &&& holds_root(after.authenticated(), cp)
        },
{
    if let Ok((after, admission)) = store.ingesting(config, cp, raw, pending, named) {
        promotions_only_append(store, cp, pending);
        let promoted = store.promoting_all(cp, pending)->Ok_0;
        assert(promoted.authenticated() == store.authenticated());
        let recorded = if admission.series_member {
            recording_forgets_nothing(promoted, cp);
            promoted.recording(cp)->Ok_0.0
        } else {
            promoted
        };
        anchoring_all_forgets_nothing(recorded, admission.rotation_anchors, cp);
        if admission.series_member {
            let all = after.authenticated();
            assert(all.contains(cp));
            let k = choose|k: int| 0 <= k < all.len() && all[k] == cp;
            assert(all[k].tree_size == cp.tree_size && all[k].root_hash == cp.root_hash);
        }
    }
}

/// A contradiction is always reported: where a checkpoint of a size is held and another of that
/// size with another root is admitted, as a series member or as an anchor, served or superseded,
/// the roots diverge at that size and the floor lies at or below it.
pub proof fn an_admitted_contradiction_is_reported(
    store: StoreView,
    config: ConfigView,
    held: CheckpointView,
    cp: CheckpointView,
    raw: Option<Seq<u8>>,
    pending: Seq<PendingView>,
    named: Option<u64>,
)
    requires
        store.valid(),
        store.authenticated().contains(held),
        held.tree_size == cp.tree_size,
        held.root_hash != cp.root_hash,
    ensures
        store.ingesting(config, cp, raw, pending, named) matches Ok((after, _)) ==> {
            &&& diverges_at(after.authenticated(), cp.tree_size)
            &&& floor_of(after.authenticated()) matches Some(floor) && floor <= cp.tree_size
        },
{
    if let Ok((after, _)) = store.ingesting(config, cp, raw, pending, named) {
        a_submission_forgets_nothing(store, config, cp, raw, pending, named);
        let all = after.authenticated();
        assert(all.contains(held));
        let i = choose|i: int| 0 <= i < all.len() && all[i] == held;
        let j = choose|j: int|
            0 <= j < all.len() && (#[trigger] all[j]).tree_size == cp.tree_size && all[j].root_hash
                == cp.root_hash;
        assert(all[i].tree_size == cp.tree_size && all[j].tree_size == cp.tree_size);
        a_divergence_has_a_floor(all, cp.tree_size);
    }
}

/// Whether a pending promotion proves an entry at an index: it names the entry and the index,
/// and its path opens the checkpoint's root for the leaf of exactly those bytes there.
pub open spec fn proves(
    claim: PendingView,
    cp: CheckpointView,
    entry: EntryView,
    index: int,
) -> bool {
    &&& claim.entry_id == entry.entry_id
    &&& claim.leaf_index == index
    &&& hash_of_text(cp.root_hash) matches Some(root)
    &&& path_of(claim.inclusion_path) matches Some(path)
    &&& inclusion_verdict(
        leaf_of(entry.envelope),
        index as nat,
        cp.tree_size as nat,
        path,
        root,
    ) == Some(true)
}

/// Promotions in order promote proven bytes only.
proof fn promotions_are_proven(store: StoreView, cp: CheckpointView, pending: Seq<PendingView>)
    ensures
        store.promoting_all(cp, pending) matches Ok(after) ==> forall|i: int|
            store.entries.len() <= i < after.entries.len() ==> exists|k: int|
                0 <= k < pending.len() && proves(
                    #[trigger] pending[k],
                    cp,
                    #[trigger] after.entries[i],
                    i,
                ),
    decreases pending.len(),
{
    if pending.len() > 0 {
        promotions_are_proven(store, cp, pending.drop_last());
        if let Ok(after) = store.promoting_all(cp, pending) {
            let before = store.promoting_all(cp, pending.drop_last())->Ok_0;
            let last = pending.last();
            only_proven_bytes_become_canonical(
                before,
                cp,
                last.entry_id,
                last.leaf_index,
                last.inclusion_path,
            );
            assert forall|i: int| store.entries.len() <= i < after.entries.len() implies exists|
                k: int,
            |
                0 <= k < pending.len() && proves(
                    #[trigger] pending[k],
                    cp,
                    #[trigger] after.entries[i],
                    i,
                ) by {
                if i < before.entries.len() {
                    assert(after.entries[i] == before.entries[i]);
                    let k = choose|k: int|
                        0 <= k < pending.len() - 1 && proves(
                            #[trigger] pending.drop_last()[k],
                            cp,
                            before.entries[i],
                            i,
                        );
                    assert(pending[k] == pending.drop_last()[k]);
                } else {
                    assert(proves(pending[pending.len() - 1], cp, after.entries[i], i));
                }
            }
        }
    }
}

/// Nothing becomes canonical without evidence: every entry that a submitted checkpoint brings in
/// has a pending promotion whose inclusion path opens the checkpoint's root for its bytes at its
/// index.
pub proof fn ingested_entries_are_proven(
    store: StoreView,
    config: ConfigView,
    cp: CheckpointView,
    raw: Option<Seq<u8>>,
    pending: Seq<PendingView>,
    named: Option<u64>,
)
    ensures
        store.ingesting(config, cp, raw, pending, named) matches Ok((after, _)) ==> forall|i: int|
            store.entries.len() <= i < after.entries.len() ==> exists|k: int|
                0 <= k < pending.len() && proves(
                    #[trigger] pending[k],
                    cp,
                    #[trigger] after.entries[i],
                    i,
                ),
{
    if let Ok((after, admission)) = store.ingesting(config, cp, raw, pending, named) {
        promotions_are_proven(store, cp, pending);
        let promoted = store.promoting_all(cp, pending)->Ok_0;
        let recorded = if admission.series_member {
            promoted.recording(cp)->Ok_0.0
        } else {
            promoted
        };
        anchoring_adds_anchors_only(recorded, admission.rotation_anchors, cp);
        assert(after.entries == promoted.entries);
    }
}

/// A checkpoint whose root contradicts the entries it commits is never recorded: where the
/// store reaches it after a submission, its root is the root over them.
pub proof fn no_recorded_root_contradicts_the_entries(
    store: StoreView,
    config: ConfigView,
    cp: CheckpointView,
    raw: Option<Seq<u8>>,
    pending: Seq<PendingView>,
    named: Option<u64>,
)
    ensures
        store.ingesting(config, cp, raw, pending, named) matches Ok((after, _)) ==> (cp.tree_size
            <= after.entries.len() ==> after.root_at(cp.tree_size as nat) is Ok && hash_of_text(
            cp.root_hash,
        ) == Some(after.root_at(cp.tree_size as nat)->Ok_0)),
{
    if let Ok((after, admission)) = store.ingesting(config, cp, raw, pending, named) {
        let promoted = store.promoting_all(cp, pending)->Ok_0;
        let recorded = if admission.series_member {
            promoted.recording(cp)->Ok_0.0
        } else {
            promoted
        };
        anchoring_adds_anchors_only(recorded, admission.rotation_anchors, cp);
    }
}

// ---- what is visible for a checkpoint ----

/// Whether a pending promotion is looked at for a tree size: it names an index that the store does
/// not hold and that lies below the size.
pub open spec fn is_looked_at(store: StoreView, claim: PendingView, target: u64) -> bool {
    store.entries.len() <= claim.leaf_index < target
}

/// Whether the promotion at a place is the first to name its index.
pub open spec fn is_first_to_name(pending: Seq<PendingView>, k: int) -> bool {
    &&& 0 <= k < pending.len()
    &&& forall|j: int| 0 <= j < k ==> (#[trigger] pending[j]).leaf_index != pending[k].leaf_index
}

/// Whether a pending promotion is proven: its entry is staged, and its path opens the root for the
/// leaf of the staged bytes at its index.
pub open spec fn is_proven_under(
    store: StoreView,
    claim: PendingView,
    target: u64,
    root: Seq<u8>,
) -> bool {
    &&& store.staged.contains_key(claim.entry_id)
    &&& path_of(claim.inclusion_path) matches Some(path)
    &&& inclusion_verdict(
        leaf_of(store.staged[claim.entry_id]),
        claim.leaf_index as nat,
        target as nat,
        path,
        root,
    ) == Some(true)
}

/// Why a pending promotion is not proven: it is not staged, its path is not readable, it is
/// structurally impossible, or it opens another root.
pub open spec fn why_not_proven(
    store: StoreView,
    claim: PendingView,
    target: u64,
    root: Seq<u8>,
) -> Fault {
    if !store.staged.contains_key(claim.entry_id) {
        Fault::NotStaged { entry_id: claim.entry_id }
    } else {
        match path_of(claim.inclusion_path) {
            None => Fault::Ahl,
            Some(path) => match inclusion_verdict(
                leaf_of(store.staged[claim.entry_id]),
                claim.leaf_index as nat,
                target as nat,
                path,
                root,
            ) {
                None => Fault::Atl,
                Some(_) => Fault::InclusionProofInvalid {
                    entry_id: claim.entry_id,
                    leaf_index: claim.leaf_index,
                    tree_size: target,
                },
            },
        }
    }
}

/// Whether an overlay holds exactly the first claims: an index is in it exactly where a promotion
/// that is looked at names it, and what it holds is the staged bytes of the first such, which is
/// proven.
spec fn holds_first_claims(
    store: StoreView,
    pending: Seq<PendingView>,
    target: u64,
    root: Seq<u8>,
    overlay: Map<u64, Seq<u8>>,
) -> bool {
    &&& forall|index: u64| #[trigger]
        overlay.contains_key(index) ==> exists|k: int|
            is_first_to_name(pending, k) && is_looked_at(store, #[trigger] pending[k], target)
                && pending[k].leaf_index == index
    &&& forall|k: int|
        0 <= k < pending.len() && is_looked_at(store, #[trigger] pending[k], target)
            ==> overlay.contains_key(pending[k].leaf_index)
    &&& forall|k: int|
        is_first_to_name(pending, k) && is_looked_at(store, #[trigger] pending[k], target)
            ==> is_proven_under(store, pending[k], target, root)
            && overlay[pending[k].leaf_index] == store.staged[pending[k].entry_id]
}

/// Whether a fault is that of a first claim that is not proven.
spec fn is_of_a_first_claim(
    store: StoreView,
    pending: Seq<PendingView>,
    target: u64,
    root: Seq<u8>,
    fault: Fault,
) -> bool {
    exists|k: int|
        is_first_to_name(pending, k) && is_looked_at(store, #[trigger] pending[k], target)
            && !is_proven_under(store, pending[k], target, root) && fault == why_not_proven(
            store,
            pending[k],
            target,
            root,
        )
}

/// A promotion is the first to name its index whatever follows it.
proof fn a_first_claim_stays_first(pending: Seq<PendingView>, k: int)
    requires
        0 <= k < pending.len() - 1,
    ensures
        is_first_to_name(pending.drop_last(), k) == is_first_to_name(pending, k),
        pending.drop_last()[k] == pending[k],
{
    let rest = pending.drop_last();
    if is_first_to_name(rest, k) {
        assert forall|j: int| 0 <= j < k implies (#[trigger] pending[j]).leaf_index
            != pending[k].leaf_index by {
            assert(rest[j].leaf_index != rest[k].leaf_index);
        }
    }
    if is_first_to_name(pending, k) {
        assert forall|j: int| 0 <= j < k implies (#[trigger] rest[j]).leaf_index
            != rest[k].leaf_index by {
            assert(pending[j].leaf_index != pending[k].leaf_index);
        }
    }
}

/// A promotion that names a new index is the first to, and one that names a held index is not.
proof fn one_more_claim(
    store: StoreView,
    pending: Seq<PendingView>,
    target: u64,
    root: Seq<u8>,
    before: Map<u64, Seq<u8>>,
)
    requires
        pending.len() > 0,
        holds_first_claims(store, pending.drop_last(), target, root, before),
        is_looked_at(store, pending.last(), target),
    ensures
        is_first_to_name(pending, pending.len() - 1) <==> !before.contains_key(
            pending.last().leaf_index,
        ),
{
    let rest = pending.drop_last();
    let at = pending.len() - 1;
    let p = pending.last();
    if before.contains_key(p.leaf_index) {
        let k = choose|k: int|
            is_first_to_name(rest, k) && is_looked_at(store, #[trigger] rest[k], target)
                && rest[k].leaf_index == p.leaf_index;
        assert(pending[k].leaf_index == pending[at].leaf_index);
    } else {
        assert forall|j: int| 0 <= j < at implies (#[trigger] pending[j]).leaf_index
            != pending[at].leaf_index by {
            if pending[j].leaf_index == p.leaf_index {
                assert(is_looked_at(store, rest[j], target));
            }
        }
    }
}

/// With one more promotion an overlay holds the first claims still: with its bytes where it is
/// looked at, the first to name its index and proven, and as it was where it is not looked at or
/// not the first.
proof fn the_first_claims_with_one_more(
    store: StoreView,
    pending: Seq<PendingView>,
    target: u64,
    root: Seq<u8>,
    before: Map<u64, Seq<u8>>,
    overlay: Map<u64, Seq<u8>>,
)
    requires
        pending.len() > 0,
        holds_first_claims(store, pending.drop_last(), target, root, before),
        ({
            let p = pending.last();
            if is_looked_at(store, p, target) && !before.contains_key(p.leaf_index) {
                is_proven_under(store, p, target, root) && overlay == before.insert(
                    p.leaf_index,
                    store.staged[p.entry_id],
                )
            } else {
                overlay == before
            }
        }),
    ensures
        holds_first_claims(store, pending, target, root, overlay),
{
    let rest = pending.drop_last();
    let at = pending.len() - 1;
    let p = pending.last();
    if is_looked_at(store, p, target) {
        one_more_claim(store, pending, target, root, before);
    }
    assert forall|index: u64| #[trigger] overlay.contains_key(index) implies exists|k: int|
        is_first_to_name(pending, k) && is_looked_at(store, #[trigger] pending[k], target)
            && pending[k].leaf_index == index by {
        if before.contains_key(index) {
            let k = choose|k: int|
                is_first_to_name(rest, k) && is_looked_at(store, #[trigger] rest[k], target)
                    && rest[k].leaf_index == index;
            a_first_claim_stays_first(pending, k);
            assert(is_looked_at(store, pending[k], target));
        } else {
            assert(is_looked_at(store, pending[at], target));
        }
    }
    assert forall|k: int|
        0 <= k < pending.len() && is_looked_at(
            store,
            #[trigger] pending[k],
            target,
        ) implies overlay.contains_key(pending[k].leaf_index) by {
        if k < at {
            assert(is_looked_at(store, rest[k], target));
        }
    }
    assert forall|k: int|
        is_first_to_name(pending, k) && is_looked_at(
            store,
            #[trigger] pending[k],
            target,
        ) implies is_proven_under(store, pending[k], target, root)
        && overlay[pending[k].leaf_index] == store.staged[pending[k].entry_id] by {
        if k < at {
            a_first_claim_stays_first(pending, k);
            assert(is_looked_at(store, rest[k], target));
            assert(before.contains_key(rest[k].leaf_index));
        }
    }
}

/// A promotion is looked at exactly where it names an index below the target that the window does
/// not reach, and judged by its path.
proof fn a_claim_is_judged_by_its_path(
    store: StoreView,
    p: PendingView,
    target: u64,
    root: Seq<u8>,
)
    ensures
        is_looked_at(store, p, target) <==> !(p.leaf_index >= target || p.leaf_index
            < store.window(0, target as int).len()),
        store.staged.contains_key(p.entry_id) ==> match inclusion_of(
            store.staged[p.entry_id],
            p.leaf_index,
            target,
            p.inclusion_path,
            root,
        ) {
            Ok(opens) => opens == is_proven_under(store, p, target, root) && (!opens
                ==> why_not_proven(store, p, target, root) == (Fault::InclusionProofInvalid {
                entry_id: p.entry_id,
                leaf_index: p.leaf_index,
                tree_size: target,
            })),
            Err(fault) => !is_proven_under(store, p, target, root) && why_not_proven(
                store,
                p,
                target,
                root,
            ) == fault,
        },
        !store.staged.contains_key(p.entry_id) ==> !is_proven_under(store, p, target, root)
            && why_not_proven(store, p, target, root) == (Fault::NotStaged {
            entry_id: p.entry_id,
        }),
{
}

/// The overlay holds the staged bytes of the first promotion to name each index that is looked at,
/// and is refused for the first that is not proven.
proof fn the_overlay_holds_the_first_claims(
    store: StoreView,
    pending: Seq<PendingView>,
    target: u64,
    root: Seq<u8>,
)
    ensures
        match store.overlaid(pending, target, root) {
            Ok(overlay) => holds_first_claims(store, pending, target, root, overlay),
            Err(fault) => is_of_a_first_claim(store, pending, target, root, fault),
        },
    decreases pending.len(),
{
    if pending.len() > 0 {
        let rest = pending.drop_last();
        let at = pending.len() - 1;
        let p = pending.last();
        the_overlay_holds_the_first_claims(store, rest, target, root);
        a_claim_is_judged_by_its_path(store, p, target, root);
        match store.overlaid(rest, target, root) {
            Err(fault) => {
                let k = choose|k: int|
                    is_first_to_name(rest, k) && is_looked_at(store, #[trigger] rest[k], target)
                        && !is_proven_under(store, rest[k], target, root) && fault
                        == why_not_proven(store, rest[k], target, root);
                a_first_claim_stays_first(pending, k);
                assert(is_looked_at(store, pending[k], target));
            },
            Ok(before) => {
                if let Ok(overlay) = store.overlaid(pending, target, root) {
                    the_first_claims_with_one_more(store, pending, target, root, before, overlay);
                } else {
                    one_more_claim(store, pending, target, root, before);
                    assert(is_looked_at(store, pending[at], target));
                }
            },
        }
    }
}

/// A run goes on for as long as the overlay has the next index, and no further.
proof fn a_run_is_the_longest(overlay: Map<u64, Seq<u8>>, next: nat, target: nat)
    requires
        next <= target <= u64::MAX,
    ensures
        next + run_of(overlay, next, target).len() <= target,
        next + run_of(overlay, next, target).len() < target ==> !overlay.contains_key(
            (next + run_of(overlay, next, target).len()) as u64,
        ),
    decreases target - next,
{
    if next < target && overlay.contains_key(next as u64) {
        a_run_is_the_longest(overlay, next + 1, target);
        assert(run_of(overlay, next, target).len() == run_of(overlay, next + 1, target).len() + 1);
    } else {
        assert(run_of(overlay, next, target).len() == 0);
    }
}

/// What a run holds at a place is what the overlay holds at the index.
proof fn a_run_holds_the_overlay(overlay: Map<u64, Seq<u8>>, next: nat, target: nat, i: int)
    requires
        0 <= i < run_of(overlay, next, target).len(),
        next <= target <= u64::MAX,
    ensures
        overlay.contains_key((next + i) as u64),
        run_of(overlay, next, target)[i] == overlay[(next + i) as u64],
    decreases target - next,
{
    let rest = run_of(overlay, next + 1, target);
    assert(run_of(overlay, next, target) == seq![overlay[next as u64]] + rest);
    if i > 0 {
        a_run_holds_the_overlay(overlay, next + 1, target, i - 1);
        assert(run_of(overlay, next, target)[i] == rest[i - 1]);
        assert((next + 1 + (i - 1)) as u64 == (next + i) as u64);
    }
}

/// Whether promotions bring bytes in at an index: the first to name the index is proven, and the
/// bytes are those staged under its id.
pub open spec fn is_brought_in(
    store: StoreView,
    pending: Seq<PendingView>,
    target: u64,
    root: Seq<u8>,
    index: int,
    bytes: Seq<u8>,
) -> bool {
    exists|k: int|
        is_first_to_name(pending, k) && (#[trigger] pending[k]).leaf_index == index
            && is_proven_under(store, pending[k], target, root) && bytes
            == store.staged[pending[k].entry_id]
}

/// The visible prefix is the longest one. It holds the store's own entries below the size; beyond
/// them it holds, at each index, exactly the staged bytes of the first promotion to name it, which
/// is proven under the claimed root; and it ends at the size, or where no promotion names the next
/// index. So an index is visible wherever every index from the store's end up to it is named.
pub proof fn the_visible_prefix_is_the_longest(
    store: StoreView,
    pending: Seq<PendingView>,
    target: u64,
    root: Seq<u8>,
)
    requires
        store.entries.len() <= MAX_LEAVES,
    ensures
        store.visible(pending, target, root) matches Ok(prefix) ==> {
            &&& target <= MAX_LEAVES
            &&& prefix.len() <= target
            &&& forall|i: int|
                0 <= i < store.entries.len() && i < target ==> i < prefix.len()
                    && #[trigger] prefix[i] == store.entries[i].envelope
            &&& forall|i: int|
                store.entries.len() <= i < prefix.len() ==> is_brought_in(
                    store,
                    pending,
                    target,
                    root,
                    i,
                    #[trigger] prefix[i],
                )
            &&& prefix.len() < target ==> forall|k: int|
                0 <= k < pending.len() ==> (#[trigger] pending[k]).leaf_index != prefix.len()
        },
{
    if let Ok(prefix) = store.visible(pending, target, root) {
        let overlay = store.overlaid(pending, target, root)->Ok_0;
        let canonical = envelopes_of(store.window(0, target as int));
        the_overlay_holds_the_first_claims(store, pending, target, root);
        a_run_is_the_longest(overlay, canonical.len(), target as nat);
        let run = run_of(overlay, canonical.len(), target as nat);
        assert(prefix =~= canonical + run);
        assert(prefix.len() <= target);
        assert forall|i: int| 0 <= i < store.entries.len() && i < target implies i < prefix.len()
            && #[trigger] prefix[i] == store.entries[i].envelope by {
            assert(prefix[i] == canonical[i]);
        }
        assert forall|i: int| store.entries.len() <= i < prefix.len() implies is_brought_in(
            store,
            pending,
            target,
            root,
            i,
            #[trigger] prefix[i],
        ) by {
            let at = i - canonical.len();
            assert(prefix[i] == run[at]);
            a_run_holds_the_overlay(overlay, canonical.len(), target as nat, at);
            assert(overlay.contains_key((canonical.len() + at) as u64));
            let k = choose|k: int|
                is_first_to_name(pending, k) && is_looked_at(store, #[trigger] pending[k], target)
                    && pending[k].leaf_index == i as u64;
            assert(is_proven_under(store, pending[k], target, root));
        }
        if prefix.len() < target {
            assert forall|k: int| 0 <= k < pending.len() implies (
            #[trigger] pending[k]).leaf_index != prefix.len() by {
                if pending[k].leaf_index == prefix.len() {
                    assert(is_looked_at(store, pending[k], target));
                }
            }
        }
    }
}

/// What is visible is refused exactly where no store can address the size, or where a promotion
/// that is looked at and is the first to name its index is not proven; and it is refused for what
/// that one fails in.
pub proof fn the_visible_prefix_is_refused_for_an_unproven_claim(
    store: StoreView,
    pending: Seq<PendingView>,
    target: u64,
    root: Seq<u8>,
)
    ensures
        match store.visible(pending, target, root) {
            Ok(_) => target <= MAX_LEAVES && forall|k: int|
                is_first_to_name(pending, k) && is_looked_at(store, #[trigger] pending[k], target)
                    ==> is_proven_under(store, pending[k], target, root),
            Err(fault) => (target > MAX_LEAVES && fault == (Fault::IndexOverflow {
                what: "to_index"@,
            })) || exists|k: int|
                is_first_to_name(pending, k) && is_looked_at(store, #[trigger] pending[k], target)
                    && !is_proven_under(store, pending[k], target, root) && fault
                    == why_not_proven(store, pending[k], target, root),
        },
{
    the_overlay_holds_the_first_claims(store, pending, target, root);
}

// ---- what is signed, and under which key ----

/// A checkpoint verifies under a key exactly where it names the log, its log id and root are hash
/// texts and its time is a checkpoint time, a blob carried beside it is the one assembled from
/// them, and its signature verifies over that blob under the key.
pub proof fn a_checkpoint_verifies_over_its_own_blob(
    cp: CheckpointView,
    raw: Option<Seq<u8>>,
    log_id: Seq<char>,
    key: Seq<u8>,
)
    ensures
        signature_judged(cp, raw, log_id, key) is Ok <==> {
            &&& cp.log_id == log_id
            &&& hash_of_text(cp.log_id) matches Some(origin)
            &&& hash_of_text(cp.root_hash) matches Some(root)
            &&& checkpoint_time_nanos(cp.checkpoint_time) matches Ok(nanos)
            &&& raw matches Some(bytes) ==> bytes == blob_of(origin, cp.tree_size, nanos, root)
            &&& signature_verdict(key, blob_of(origin, cp.tree_size, nanos, root), cp.signature)
                == Some(true)
        },
        signature_judged(cp, raw, log_id, key) matches Err(fault) ==> {
            &&& cp.log_id != log_id ==> fault == (Fault::WrongLogId {
                expected: log_id,
                got: cp.log_id,
            })
            &&& cp.log_id == log_id && (hash_of_text(cp.log_id) is None || hash_of_text(
                cp.root_hash,
            ) is None) ==> fault == Fault::Ahl
            &&& cp.log_id == log_id && hash_of_text(cp.log_id) is Some && hash_of_text(
                cp.root_hash,
            ) is Some ==> match checkpoint_time_nanos(cp.checkpoint_time) {
                Err(unreadable) => fault == unreadable,
                Ok(nanos) => {
                    let blob = blob_of(
                        hash_of_text(cp.log_id)->0,
                        cp.tree_size,
                        nanos,
                        hash_of_text(cp.root_hash)->0,
                    );
                    if raw is Some && raw->0 != blob {
                        fault == Fault::RawBlobMismatch
                    } else if signature_verdict(key, blob, cp.signature) is None {
                        fault == Fault::Ahl
                    } else {
                        fault == (Fault::SignatureInvalid { key_id: cp.key_id })
                    }
                },
            }
        },
{
}

/// What a blob holds: the protocol's name, the origin, the size and the time as eight octets each,
/// the least first, and the root, one behind the other.
pub proof fn a_blob_holds_its_parts_in_place(
    origin: Seq<u8>,
    tree_size: u64,
    nanos: u64,
    root: Seq<u8>,
    i: int,
)
    requires
        origin.len() == 32,
        root.len() == 32,
        0 <= i < 8,
    ensures
        ({
            let blob = blob_of(origin, tree_size, nanos, root);
            &&& blob.len() == 98
            &&& blob.take(18) == seq![
                65u8, 84u8, 76u8, 45u8, 80u8, 114u8, 111u8, 116u8, 111u8, 99u8, 111u8, 108u8, 45u8,
                118u8, 49u8, 45u8, 67u8, 80u8,
            ]
            &&& blob.subrange(18, 50) == origin
            &&& blob[50 + i] == (tree_size as nat / octet_range(i as nat)) % 256
            &&& blob[58 + i] == (nanos as nat / octet_range(i as nat)) % 256
            &&& blob.subrange(66, 98) == root
        }),
{
    let blob = blob_of(origin, tree_size, nanos, root);
    let size_octets = le_octets(tree_size as nat, 8);
    let time_octets = le_octets(nanos as nat, 8);
    octets_have_their_count(tree_size as nat, 8);
    octets_have_their_count(nanos as nat, 8);
    an_octet_is_its_digit(tree_size as nat, 8, i);
    an_octet_is_its_digit(nanos as nat, 8, i);
    assert(blob.take(18) =~= checkpoint_magic());
    assert(blob.subrange(18, 50) =~= origin);
    assert(blob.subrange(50, 58) =~= size_octets);
    assert(blob.subrange(58, 66) =~= time_octets);
    assert(blob.subrange(66, 98) =~= root);
    assert(blob[50 + i] == blob.subrange(50, 58)[i]);
    assert(blob[58 + i] == blob.subrange(58, 66)[i]);
}

/// A checkpoint verifies under a version exactly where the first log key listed with its id is
/// valid for its size and it verifies under that key.
pub proof fn a_checkpoint_verifies_under_a_version_by_its_key(
    governance: GovernanceView,
    log_id: Seq<char>,
    cp: CheckpointView,
    raw: Option<Seq<u8>>,
)
    ensures
        match governance.log_key(cp.key_id, cp.tree_size) {
            Ok(key) => verified_under(governance, log_id, cp, raw) == signature_judged(
                cp,
                raw,
                log_id,
                key,
            ),
            Err(fault) => verified_under(governance, log_id, cp, raw) == Err::<(), Fault>(fault),
        },
{
}

// ---- what a submission comes to ----

/// What a checkpoint is admitted as, in full. It is a member exactly where it verifies under the
/// last version, and the anchor of exactly the rotations it anchors. Where one was named that is
/// not among them it is refused for that; otherwise it is refused only where it is neither a
/// member nor an anchor, with what it failed in under the last version.
pub proof fn an_admission_answers_both_questions(
    versions: Seq<GovernanceView>,
    log_id: Seq<char>,
    cp: CheckpointView,
    raw: Option<Seq<u8>>,
    named: Option<u64>,
)
    ensures
        ({
            let anchors = anchors_of(versions, log_id, cp, raw);
            let ordinary = verified_under(versions.last(), log_id, cp, raw);
            let admitted = admission_under(versions, log_id, cp, raw, named);
            let misnamed = named is Some && !anchors.contains(named->0);
            &&& admitted is Ok <==> !misnamed && (ordinary is Ok || anchors.len() > 0)
            &&& admitted matches Ok(admission) ==> admission == (AdmissionView {
                series_member: ordinary is Ok,
                rotation_anchors: anchors,
            })
            &&& misnamed ==> (admitted matches Err(Fault::NotRotationMaterial {
                tree_size,
                manifest_entry_index,
                ..
            }) && tree_size == cp.tree_size && manifest_entry_index == named->0)
            &&& !misnamed && admitted is Err ==> admitted == Err::<AdmissionView, Fault>(
                ordinary->Err_0,
            )
        }),
{
}

/// Whether the version at a place is a rotation of the one before at a manifest entry index.
pub open spec fn is_rotation_at(versions: Seq<GovernanceView>, index: u64, k: int) -> bool {
    &&& 1 <= k < versions.len()
    &&& versions[k].governing_manifest_entry_index == index
    &&& versions[k].rotates(versions[k - 1])
}

/// Why a named rotation is not anchored: where there is no rotation at the index, that is the
/// reason; where there is one, it is that the size is not beyond the index, or that the checkpoint
/// does not verify under the version that was retired.
pub proof fn a_misnamed_rotation_is_told_why(
    versions: Seq<GovernanceView>,
    log_id: Seq<char>,
    cp: CheckpointView,
    raw: Option<Seq<u8>>,
    named: u64,
    count: int,
)
    requires
        is_chain(versions, count),
        !anchors_of(versions, log_id, cp, raw).contains(named),
    ensures
        (forall|k: int| !#[trigger] is_rotation_at(versions, named, k)) ==> named_reason(
            versions,
            log_id,
            cp,
            raw,
            named,
        )
            == "the manifest version at that entry index is not a governance-key rotation of its predecessor"@,
        (exists|k: int| #[trigger] is_rotation_at(versions, named, k)) ==> named_reason(
            versions,
            log_id,
            cp,
            raw,
            named,
        ) == if cp.tree_size <= named {
            "the checkpoint's tree_size is not greater than the manifest entry index"@
        } else {
            "the checkpoint does not verify under a log key of the version preceding the rotating one"@
        },
    decreases versions.len(),
{
    if versions.len() >= 2 {
        let rest = versions.drop_last();
        let last = versions.len() - 1;
        assert(is_chain(rest, count)) by {
            assert forall|i: int| 0 <= i < rest.len() implies #[trigger] rest[i] == versions[i] by {}
        }
        assert forall|k: int| is_rotation_at(versions, named, k) == (k < last && is_rotation_at(
            rest,
            named,
            k,
        ) || k == last && is_rotation_at(versions, named, last)) by {}
        let before = anchors_of(rest, log_id, cp, raw);
        let found = anchors_of(versions, log_id, cp, raw);
        assert(!before.contains(named)) by {
            if before.contains(named) {
                let i = choose|i: int| 0 <= i < before.len() && before[i] == named;
                assert(found[i] == named);
            }
        }
        a_misnamed_rotation_is_told_why(rest, log_id, cp, raw, named, count);
        if is_rotation_at(versions, named, last) {
            let reason = anchor_reason(versions[last - 1], named, log_id, cp, raw);
            if reason is None {
                assert(found[before.len() as int] == named);
            }
        } else {
            assert forall|k: int| #[trigger]
                is_rotation_at(versions, named, k) implies is_rotation_at(rest, named, k) by {}
            assert forall|k: int| #[trigger]
                is_rotation_at(rest, named, k) implies is_rotation_at(versions, named, k) by {}
        }
    } else {
        assert forall|k: int| !#[trigger] is_rotation_at(versions, named, k) by {}
    }
}

/// A submission is judged under the governance of what is visible for it: the versions are those
/// of the visible prefix, and with them the checkpoint is admitted or refused. Before that it is
/// refused where no store can address its size, where its root is no hash text, and where a node
/// over the entries it commits is lost, in this order.
pub proof fn a_submission_is_judged_under_what_is_visible(
    store: StoreView,
    config: ConfigView,
    cp: CheckpointView,
    raw: Option<Seq<u8>>,
    pending: Seq<PendingView>,
    named: Option<u64>,
)
    requires
        store.entries.len() <= MAX_LEAVES,
    ensures
        ({
            let judged = store.judging(config, cp, raw, pending, named);
            let held = if cp.tree_size <= store.entries.len() {
                cp.tree_size as nat
            } else {
                store.entries.len()
            };
            if cp.tree_size > MAX_LEAVES {
                judged == Err::<AdmissionView, Fault>(
                    Fault::TreeSizeUnrepresentable { tree_size: cp.tree_size, max: MAX_LEAVES },
                )
            } else if hash_of_text(cp.root_hash) is None {
                judged == Err::<AdmissionView, Fault>(Fault::Ahl)
            } else if store.tree.gap(0, held) is Some {
                judged == Err::<AdmissionView, Fault>(missing(store.tree.gap(0, held)->0))
            } else {
                match store.visible(pending, cp.tree_size, hash_of_text(cp.root_hash)->0) {
                    Err(fault) => judged == Err::<AdmissionView, Fault>(fault),
                    Ok(prefix) => match chain(prefix, config) {
                        Err(fault) => judged == Err::<AdmissionView, Fault>(fault),
                        Ok((_, versions)) => if versions.len() == 0 {
                            judged == Err::<AdmissionView, Fault>(
                                Fault::GovernanceChainUnresolvable {
                                    tree_size: prefix.len() as u64,
                                },
                            )
                        } else {
                            judged == admission_under(versions, config.log_id, cp, raw, named)
                        },
                    },
                }
            }
        }),
{
}

/// An admitted submission promotes all of what it brings: every pending promotion is canonical
/// afterwards, at the index it names, under its id and with the bytes that were staged.
pub proof fn an_admitted_submission_promotes_everything(
    store: StoreView,
    config: ConfigView,
    cp: CheckpointView,
    raw: Option<Seq<u8>>,
    pending: Seq<PendingView>,
    named: Option<u64>,
    k: int,
)
    requires
        0 <= k < pending.len(),
    ensures
        store.ingesting(config, cp, raw, pending, named) matches Ok((after, _)) ==> {
            &&& store.staged.contains_key(pending[k].entry_id)
            &&& pending[k].leaf_index < after.entries.len()
            &&& after.entries[pending[k].leaf_index as int].entry_id == pending[k].entry_id
            &&& after.entries[pending[k].leaf_index as int].envelope
                == store.staged[pending[k].entry_id]
        },
{
    if let Ok((after, admission)) = store.ingesting(config, cp, raw, pending, named) {
        every_promotion_takes_its_place(store, cp, pending, k);
        let promoted = store.promoting_all(cp, pending)->Ok_0;
        let recorded = if admission.series_member {
            promoted.recording(cp)->Ok_0.0
        } else {
            promoted
        };
        anchoring_adds_anchors_only(recorded, admission.rotation_anchors, cp);
        assert(after.entries == promoted.entries);
    }
}

/// Promotions in order take the places they name.
proof fn every_promotion_takes_its_place(
    store: StoreView,
    cp: CheckpointView,
    pending: Seq<PendingView>,
    k: int,
)
    requires
        0 <= k < pending.len(),
    ensures
        store.promoting_all(cp, pending) matches Ok(after) ==> {
            &&& store.staged.contains_key(pending[k].entry_id)
            &&& pending[k].leaf_index < after.entries.len()
            &&& after.entries[pending[k].leaf_index as int].entry_id == pending[k].entry_id
            &&& after.entries[pending[k].leaf_index as int].envelope
                == store.staged[pending[k].entry_id]
        },
    decreases pending.len(),
{
    let rest = pending.drop_last();
    promotions_only_append(store, cp, rest);
    if let Ok(after) = store.promoting_all(cp, pending) {
        let before = store.promoting_all(cp, rest)->Ok_0;
        if k < rest.len() {
            every_promotion_takes_its_place(store, cp, rest, k);
            assert(rest[k] == pending[k]);
            let at = pending[k].leaf_index as int;
            assert(after.entries[at] == before.entries[at]);
        }
    }
}

/// An admitted submission is recorded as what it was admitted as: as a member, the series holds it
/// beside what it held; as an anchor, each of its rotations is served the earlier of it and what
/// was served before, and no other rotation's anchor changes.
pub proof fn an_admitted_submission_is_recorded(
    store: StoreView,
    config: ConfigView,
    cp: CheckpointView,
    raw: Option<Seq<u8>>,
    pending: Seq<PendingView>,
    named: Option<u64>,
    index: u64,
)
    requires
        store.valid(),
    ensures
        store.ingesting(config, cp, raw, pending, named) matches Ok((after, admission)) ==> {
            &&& forall|other: CheckpointView| #[trigger]
                after.checkpoints.contains(other) <==> store.checkpoints.contains(other)
                    || admission.series_member && other == cp
            &&& !admission.rotation_anchors.contains(index) ==> anchor_for(after.anchors, index)
                == anchor_for(store.anchors, index)
            &&& admission.rotation_anchors.contains(index) ==> anchor_for(after.anchors, index)
                == Some(
                match anchor_for(store.anchors, index) {
                    Some(held) => if comes_before(cp, held) {
                        cp
                    } else {
                        held
                    },
                    None => cp,
                },
            )
        },
{
    if let Ok((after, admission)) = store.ingesting(config, cp, raw, pending, named) {
        promotions_only_append(store, cp, pending);
        let promoted = store.promoting_all(cp, pending)->Ok_0;
        let recorded = if admission.series_member {
            promoted.recording(cp)->Ok_0.0
        } else {
            promoted
        };
        anchoring_adds_anchors_only(recorded, admission.rotation_anchors, cp);
        let bare = StoreView {
            entries: Seq::empty(),
            tree: TreeView { leaves: Seq::empty(), held: Set::empty() },
            ..promoted
        };
        assert(leaves_of(bare.entries) =~= Seq::<Seq<u8>>::empty());
        assert(bare.valid());
        if admission.series_member {
            the_series_only_grows(bare, cp);
            assert(bare.recording(cp)->Ok_0.0.checkpoints == recorded.checkpoints);
        }
        every_rotation_is_served_the_earlier(recorded, admission.rotation_anchors, cp, index);
    }
}

/// Anchors in order leave each of their rotations the earlier of the two.
proof fn every_rotation_is_served_the_earlier(
    store: StoreView,
    indexes: Seq<u64>,
    cp: CheckpointView,
    index: u64,
)
    requires
        in_weak_order(anchor_checkpoints(store.anchors)),
        in_weak_order(store.superseded),
    ensures
        store.anchoring_all(indexes, cp) matches Ok(after) ==> {
            &&& !indexes.contains(index) ==> anchor_for(after.anchors, index) == anchor_for(
                store.anchors,
                index,
            )
            &&& indexes.contains(index) ==> anchor_for(after.anchors, index) == Some(
                match anchor_for(store.anchors, index) {
                    Some(held) => if comes_before(cp, held) {
                        cp
                    } else {
                        held
                    },
                    None => cp,
                },
            )
        },
    decreases indexes.len(),
{
    if indexes.len() > 0 {
        let rest = indexes.drop_last();
        every_rotation_is_served_the_earlier(store, rest, cp, index);
        anchoring_all_forgets_nothing(store, rest, cp);
        if let Ok(after) = store.anchoring_all(indexes, cp) {
            let before = store.anchoring_all(rest, cp)->Ok_0;
            let bare = StoreView {
                entries: Seq::empty(),
                tree: TreeView { leaves: Seq::empty(), held: Set::empty() },
                checkpoints: Seq::empty(),
                ..before
            };
            assert(leaves_of(bare.entries) =~= Seq::<Seq<u8>>::empty());
            assert(bare.valid());
            the_earliest_anchor_is_served(bare, indexes.last(), cp);
            assert(bare.anchoring(indexes.last(), cp)->Ok_0.0.anchors == after.anchors);
            order_is_total(cp, cp);
            assert(indexes.contains(index) <==> rest.contains(index) || index == indexes.last())
                by {
                if rest.contains(index) {
                    let i = choose|i: int| 0 <= i < rest.len() && rest[i] == index;
                    assert(indexes[i] == index);
                }
                if index == indexes.last() {
                    assert(indexes[indexes.len() - 1] == index);
                }
                if indexes.contains(index) && index != indexes.last() {
                    let i = choose|i: int| 0 <= i < indexes.len() && indexes[i] == index;
                    assert(rest[i] == index);
                }
            }
        }
    }
}

/// A submission that brings no entries is admitted wherever it is judged to be, unless the entries
/// reach its size with another root, or its place in the series or among the anchors of one of its
/// rotations is taken by another checkpoint.
pub proof fn a_judged_checkpoint_is_admitted(
    store: StoreView,
    config: ConfigView,
    cp: CheckpointView,
    raw: Option<Seq<u8>>,
    named: Option<u64>,
)
    requires
        store.valid(),
        store.tree.held == complete_nodes(store.entries.len()),
        cp.tree_size <= store.entries.len() ==> hash_of_text(cp.root_hash) == Some(
            root_of(leaves_of(store.entries).take(cp.tree_size as int)),
        ),
        forall|i: int|
            0 <= i < store.checkpoints.len() && (#[trigger] store.checkpoints[i]).tree_size
                == cp.tree_size && store.checkpoints[i].checkpoint_time == cp.checkpoint_time
                ==> store.checkpoints[i] == cp,
        forall|i: int|
            0 <= i < store.anchors.len() && (#[trigger] store.anchors[i]).1.tree_size
                == cp.tree_size && store.anchors[i].1.checkpoint_time == cp.checkpoint_time
                ==> store.anchors[i].1 == cp,
    ensures
        match store.judging(config, cp, raw, Seq::empty(), named) {
            Ok(admission) => (forall|i: int|
                0 <= i < admission.rotation_anchors.len() ==> #[trigger] admission.rotation_anchors[
                i] <= MAX_LEAVES) ==> (store.ingesting(config, cp, raw, Seq::empty(), named)
                matches Ok((after, admitted)) && admitted == admission && after.entries
                == store.entries),
            Err(fault) => store.ingesting(config, cp, raw, Seq::empty(), named) == Err::<
                (StoreView, AdmissionView),
                Fault,
            >(fault),
        },
{
    if let Ok(admission) = store.judging(config, cp, raw, Seq::empty(), named) {
        if cp.tree_size <= store.entries.len() {
            whole_material_has_no_gap(store.tree, 0, cp.tree_size as nat);
            assert(store.tree.leaves.subrange(0, cp.tree_size as int) =~= leaves_of(
                store.entries,
            ).take(cp.tree_size as int));
            if cp.tree_size == 0 {
                assert(leaves_of(store.entries).take(0) =~= Seq::<Seq<u8>>::empty());
            }
        }
        assert(store.confirming(cp) is Ok);
        member_at_finds(store.checkpoints, cp.tree_size, cp.checkpoint_time);
        if let Some(found) = member_at(store.checkpoints, cp.tree_size, cp.checkpoint_time) {
            let k = choose|k: int| 0 <= k < store.checkpoints.len() && store.checkpoints[k] == found;
            assert(store.checkpoints[k] == cp);
        }
        let recorded = if admission.series_member {
            store.recording(cp)->Ok_0.0
        } else {
            store
        };
        if forall|i: int|
            0 <= i < admission.rotation_anchors.len() ==> #[trigger] admission.rotation_anchors[i]
                <= MAX_LEAVES {
            free_places_are_anchored(recorded, admission.rotation_anchors, cp);
            anchoring_adds_anchors_only(recorded, admission.rotation_anchors, cp);
        }
    }
}

/// Where no other checkpoint has its place among the anchors, one anchors whatever it is offered
/// for.
proof fn free_places_are_anchored(store: StoreView, indexes: Seq<u64>, cp: CheckpointView)
    requires
        cp.tree_size <= MAX_LEAVES,
        in_weak_order(anchor_checkpoints(store.anchors)),
        in_weak_order(store.superseded),
        forall|i: int| 0 <= i < indexes.len() ==> #[trigger] indexes[i] <= MAX_LEAVES,
        forall|i: int|
            0 <= i < store.anchors.len() && (#[trigger] store.anchors[i]).1.tree_size
                == cp.tree_size && store.anchors[i].1.checkpoint_time == cp.checkpoint_time
                ==> store.anchors[i].1 == cp,
    ensures
        store.anchoring_all(indexes, cp) is Ok,
        forall|i: int|
            0 <= i < store.anchoring_all(indexes, cp)->Ok_0.anchors.len() && (
            #[trigger] store.anchoring_all(indexes, cp)->Ok_0.anchors[i]).1.tree_size
                == cp.tree_size && store.anchoring_all(indexes, cp)->Ok_0.anchors[i].1.checkpoint_time
                == cp.checkpoint_time ==> store.anchoring_all(indexes, cp)->Ok_0.anchors[i].1 == cp,
    decreases indexes.len(),
{
    if indexes.len() > 0 {
        let rest = indexes.drop_last();
        let index = indexes.last();
        assert(index == indexes[indexes.len() - 1]);
        assert forall|i: int| 0 <= i < rest.len() implies #[trigger] rest[i] <= MAX_LEAVES by {
            assert(rest[i] == indexes[i]);
        }
        free_places_are_anchored(store, rest, cp);
        anchoring_all_forgets_nothing(store, rest, cp);
        let before = store.anchoring_all(rest, cp)->Ok_0;
        if anchor_at(before.anchors, index, cp.tree_size, cp.checkpoint_time) is Some {
            a_found_anchor_is_listed(before.anchors, index, cp.tree_size, cp.checkpoint_time);
        }
        rank_parts_the_list(anchor_checkpoints(before.anchors), cp);
        let after = store.anchoring_all(indexes, cp)->Ok_0;
        let r = rank(anchor_checkpoints(before.anchors), cp) as int;
        assert forall|i: int|
            0 <= i < after.anchors.len() && (#[trigger] after.anchors[i]).1.tree_size
                == cp.tree_size && after.anchors[i].1.checkpoint_time
                == cp.checkpoint_time implies after.anchors[i].1 == cp by {
            if after.anchors != before.anchors {
                if i < r {
                    assert(after.anchors[i] == before.anchors[i]);
                } else if i > r {
                    assert(after.anchors[i] == before.anchors[i - 1]);
                }
            }
        }
    }
}

/// What a submission is recorded as and confirmed against: with its entries promoted, a root that
/// the entries contradict is refused as a mismatch, and the refusal of a promotion is passed on.
pub proof fn a_contradicted_root_is_refused(
    store: StoreView,
    cp: CheckpointView,
    pending: Seq<PendingView>,
    admission: AdmissionView,
)
    ensures
        match store.promoting_all(cp, pending) {
            Err(fault) => store.committing(cp, pending, admission) == Err::<StoreView, Fault>(
                fault,
            ),
            Ok(after) => after.valid() && after.tree.held == complete_nodes(after.entries.len())
                && cp.tree_size <= after.entries.len() && hash_of_text(cp.root_hash) != Some(
                root_of(leaves_of(after.entries).take(cp.tree_size as int)),
            ) ==> store.committing(cp, pending, admission) == Err::<StoreView, Fault>(
                Fault::CheckpointRootMismatch { tree_size: cp.tree_size },
            ),
        },
{
    if let Ok(after) = store.promoting_all(cp, pending) {
        if after.valid() && after.tree.held == complete_nodes(after.entries.len()) && cp.tree_size
            <= after.entries.len() {
            whole_material_has_no_gap(after.tree, 0, cp.tree_size as nat);
            assert(after.tree.leaves.subrange(0, cp.tree_size as int) =~= leaves_of(
                after.entries,
            ).take(cp.tree_size as int));
            if cp.tree_size == 0 {
                assert(leaves_of(after.entries).take(0) =~= Seq::<Seq<u8>>::empty());
            }
        }
    }
}

/// A proven batch is promoted whole: promotions that name the indexes from the store's end on, one
/// behind the other, of staged entries with an id each that are not yet canonical, each proven
/// under the checkpoint, are all promoted, in a store that lost no node and can address them.
pub proof fn a_proven_batch_is_promoted(
    store: StoreView,
    cp: CheckpointView,
    pending: Seq<PendingView>,
)
    requires
        store.valid(),
        store.tree.held == complete_nodes(store.entries.len()),
        store.entries.len() + pending.len() <= MAX_LEAVES,
        hash_of_text(cp.root_hash) is Some,
        forall|k: int|
            0 <= k < pending.len() ==> (#[trigger] pending[k]).leaf_index == store.entries.len() + k
                && is_proven_under(store, pending[k], cp.tree_size, hash_of_text(cp.root_hash)->0),
        forall|k: int, i: int|
            0 <= k < pending.len() && 0 <= i < store.entries.len() ==> (
            #[trigger] pending[k]).entry_id != (#[trigger] store.entries[i]).entry_id,
        forall|j: int, k: int|
            0 <= j < k < pending.len() ==> (#[trigger] pending[j]).entry_id != (
            #[trigger] pending[k]).entry_id,
    ensures
        store.promoting_all(cp, pending) matches Ok(after) && after.entries.len()
            == store.entries.len() + pending.len() && after.valid() && after.tree.held
            == complete_nodes(after.entries.len()),
    decreases pending.len(),
{
    if pending.len() > 0 {
        let rest = pending.drop_last();
        let at = pending.len() - 1;
        let p = pending.last();
        assert forall|k: int| 0 <= k < rest.len() implies (#[trigger] rest[k]).leaf_index
            == store.entries.len() + k && is_proven_under(
            store,
            rest[k],
            cp.tree_size,
            hash_of_text(cp.root_hash)->0,
        ) by {
            assert(rest[k] == pending[k]);
        }
        assert forall|k: int, i: int|
            0 <= k < rest.len() && 0 <= i < store.entries.len() implies (
        #[trigger] rest[k]).entry_id != (#[trigger] store.entries[i]).entry_id by {
            assert(rest[k] == pending[k]);
        }
        assert forall|j: int, k: int| 0 <= j < k < rest.len() implies (
        #[trigger] rest[j]).entry_id != (#[trigger] rest[k]).entry_id by {
            assert(rest[j] == pending[j] && rest[k] == pending[k]);
        }
        a_proven_batch_is_promoted(store, cp, rest);
        promotions_only_append(store, cp, rest);
        let before = store.promoting_all(cp, rest)->Ok_0;
        assert(pending[at] == p);
        assert forall|i: int| 0 <= i < before.entries.len() implies (
        #[trigger] before.entries[i]).entry_id != p.entry_id by {
            if i < store.entries.len() {
                assert(before.entries[i] == before.entries.take(store.entries.len() as int)[i]);
                assert(pending[at].entry_id != store.entries[i].entry_id);
            } else {
                let k = i - store.entries.len();
                every_promotion_takes_its_place(store, cp, rest, k);
                assert(rest[k] == pending[k]);
                assert(pending[k].entry_id != pending[at].entry_id);
            }
        }
        a_claim_is_judged_by_its_path(
            store,
            p,
            cp.tree_size,
            hash_of_text(cp.root_hash)->0,
        );
        a_promotion_takes_the_next_index(before, p.leaf_index, p.entry_id);
        a_whole_store_stays_whole(before, p.leaf_index, p.entry_id);
    }
}

/// Whether two checkpoints are linked is judged by their sizes, the path and their roots alone: a
/// root that is no hash text is refused, then a path that there is none of, then one that is
/// structurally impossible.
pub proof fn a_link_is_judged_by_sizes_path_and_roots(
    from: CheckpointView,
    to: CheckpointView,
    path: Result<Seq<Seq<u8>>, Fault>,
)
    ensures
        ({
            let judged = consistency_judged(from, to, path);
            if hash_of_text(from.root_hash) is None || hash_of_text(to.root_hash) is None {
                judged == Err::<bool, Fault>(Fault::Ahl)
            } else if path is Err {
                judged == Err::<bool, Fault>(path->Err_0)
            } else {
                match consistency_verdict(
                    from.tree_size as nat,
                    to.tree_size as nat,
                    path->Ok_0,
                    hash_of_text(from.root_hash)->0,
                    hash_of_text(to.root_hash)->0,
                ) {
                    None => judged == Err::<bool, Fault>(Fault::Atl),
                    Some(links) => judged == Ok::<bool, Fault>(links),
                }
            }
        }),
{
}

/// The path over a list of leaves is that between the two trees: there is none the wrong way round
/// or beyond the leaves, and it is empty from a tree to itself and from the empty tree.
pub proof fn a_path_over_leaves_is_between_its_trees(leaves: Seq<Seq<u8>>, from: u64, to: u64)
    ensures
        from > to ==> path_over(leaves, from, to) == Err::<Seq<Seq<u8>>, Fault>(Fault::Atl),
        from == to || from == 0 ==> path_over(leaves, from, to) == Ok::<Seq<Seq<u8>>, Fault>(
            Seq::empty(),
        ),
        0 < from < to && to > leaves.len() ==> path_over(leaves, from, to) == Err::<
            Seq<Seq<u8>>,
            Fault,
        >(Fault::Atl),
        0 < from < to <= leaves.len() ==> path_over(leaves, from, to) == Ok::<Seq<Seq<u8>>, Fault>(
            consistency_path(leaves.subrange(0, to as int), from as nat),
        ),
{
    if to <= leaves.len() {
        assert(leaves.subrange(0, to as int) =~= leaves.take(to as int));
    }
}

/// A submission that is refused is refused for what it is judged by, before anything is promoted;
/// and where it is judged to be admitted, it comes to what promoting its entries and recording it
/// comes to.
pub proof fn a_submission_is_judged_before_anything_is_promoted(
    store: StoreView,
    config: ConfigView,
    cp: CheckpointView,
    raw: Option<Seq<u8>>,
    pending: Seq<PendingView>,
    named: Option<u64>,
)
    ensures
        match store.judging(config, cp, raw, pending, named) {
            Err(fault) => store.ingesting(config, cp, raw, pending, named) == Err::<
                (StoreView, AdmissionView),
                Fault,
            >(fault),
            Ok(admission) => match store.promoting_all(cp, pending) {
                Err(fault) => store.ingesting(config, cp, raw, pending, named) == Err::<
                    (StoreView, AdmissionView),
                    Fault,
                >(fault),
                Ok(promoted) => cp.tree_size > promoted.entries.len() || promoted.root_at(
                    cp.tree_size as nat,
                ) == Ok::<Seq<u8>, Fault>(hash_of_text(cp.root_hash)->0) && hash_of_text(
                    cp.root_hash,
                ) is Some ==> match promoted.admitting(
                    cp,
                    admission.series_member,
                    admission.rotation_anchors,
                ) {
                    Ok(after) => store.ingesting(config, cp, raw, pending, named) == Ok::<
                        (StoreView, AdmissionView),
                        Fault,
                    >((after, admission)),
                    Err(fault) => store.ingesting(config, cp, raw, pending, named) == Err::<
                        (StoreView, AdmissionView),
                        Fault,
                    >(fault),
                },
            },
        },
{
}

/// Promotions are taken in the order they are listed: one more is proven and promoted in the store
/// that those before it leave, and the first that is refused refuses the list.
pub proof fn promotions_are_taken_in_order(
    store: StoreView,
    cp: CheckpointView,
    pending: Seq<PendingView>,
    next: PendingView,
)
    ensures
        store.promoting_all(cp, Seq::empty()) == Ok::<StoreView, Fault>(store),
        match store.promoting_all(cp, pending) {
            Err(fault) => store.promoting_all(cp, pending.push(next)) == Err::<StoreView, Fault>(
                fault,
            ),
            Ok(before) => match before.proving(
                cp,
                next.entry_id,
                next.leaf_index,
                next.inclusion_path,
            ) {
                Ok((after, _)) => store.promoting_all(cp, pending.push(next)) == Ok::<
                    StoreView,
                    Fault,
                >(after),
                Err(fault) => store.promoting_all(cp, pending.push(next)) == Err::<
                    StoreView,
                    Fault,
                >(fault),
            },
        },
{
    assert(pending.push(next).drop_last() =~= pending);
    assert(pending.push(next).last() == next);
}

/// A checkpoint is recorded in the series first and then as each of its anchors, in order; the
/// first of these that is refused refuses the whole.
pub proof fn a_checkpoint_is_recorded_in_order(
    store: StoreView,
    cp: CheckpointView,
    indexes: Seq<u64>,
    next: u64,
)
    ensures
        store.admitting(cp, false, Seq::empty()) == Ok::<StoreView, Fault>(store),
        match store.recording(cp) {
            Ok((recorded, _)) => store.admitting(cp, true, indexes) == recorded.admitting(
                cp,
                false,
                indexes,
            ),
            Err(fault) => store.admitting(cp, true, indexes) == Err::<StoreView, Fault>(fault),
        },
        match store.admitting(cp, false, indexes) {
            Err(fault) => store.admitting(cp, false, indexes.push(next)) == Err::<StoreView, Fault>(
                fault,
            ),
            Ok(before) => match before.anchoring(next, cp) {
                Ok((after, _)) => store.admitting(cp, false, indexes.push(next)) == Ok::<
                    StoreView,
                    Fault,
                >(after),
                Err(fault) => store.admitting(cp, false, indexes.push(next)) == Err::<
                    StoreView,
                    Fault,
                >(fault),
            },
        },
{
    assert(indexes.push(next).drop_last() =~= indexes);
    assert(indexes.push(next).last() == next);
}

} // verus!
