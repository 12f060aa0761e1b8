//! The errors of the library, and the ghost values contracts name them by.

use vstd::prelude::*;

verus! {

/// `serde_json::Error`, carried as it comes from a failed parse.
#[verifier::external_type_specification]
#[verifier::external_body]
pub struct ExJsonError(serde_json::Error);

/// `ahl_core::AhlError`, carried as it comes from a failed primitive.
#[verifier::external_type_specification]
#[verifier::external_body]
pub struct ExAhlError(ahl_core::AhlError);

/// `atl_core::AtlError`, carried as it comes from a failed Merkle operation.
#[verifier::external_type_specification]
#[verifier::external_body]
pub struct ExAtlError(atl_core::AtlError);

/// Results carrying a [`MirrorError`].
pub type MirrorResult<T> = Result<T, MirrorError>;

/// Every way an operation of the mirror can be refused, one variant per check.
#[derive(Debug)]
#[non_exhaustive]
#[allow(inconsistent_fields)]
pub enum MirrorError {
    /// The submitted bytes do not hash to the claimed entry id.
    EntryIdMismatch {
        /// The entry id the caller claimed.
        claimed: String,
        /// The entry id computed from the bytes.
        computed: String,
    },
    /// The bytes parse as JSON but are not envelope-shaped: an object with a `payload` object
    /// and a non-empty `signatures` array.
    MalformedEnvelope {
        /// Which structural requirement was missing.
        reason: &'static str,
    },
    /// The bytes are a well-formed envelope that does not re-serialize to itself under JCS.
    NotCanonical,
    /// The submitted ATL metadata is not the fixed adaptor metadata object.
    WrongAdaptorMetadata {
        /// The canonical metadata text actually submitted.
        got: String,
    },
    /// The entry index is not the next one the append-only log expects.
    OutOfOrderIndex {
        /// The index expected next.
        expected: u64,
        /// The index submitted.
        got: u64,
    },
    /// The entry index already holds a different entry.
    IndexConflict {
        /// The contested index.
        index: u64,
        /// The entry id stored at that index.
        existing_entry_id: String,
        /// The entry id offered for it.
        new_entry_id: String,
    },
    /// The entry id is already stored under another index; one id has one index.
    EntryIdAtDifferentIndex {
        /// The entry id in question.
        entry_id: String,
        /// The index it is stored at.
        existing_index: u64,
        /// The index asked for.
        requested_index: u64,
    },
    /// No staged candidate carries this entry id.
    NotStaged {
        /// The entry id that was not found in staging.
        entry_id: String,
    },
    /// The inclusion proof offered for a staged entry does not open the checkpoint's root.
    InclusionProofInvalid {
        /// The entry id whose inclusion was claimed.
        entry_id: String,
        /// The claimed entry index.
        leaf_index: u64,
        /// The tree size the proof was checked against.
        tree_size: u64,
    },
    /// Stored bytes no longer hash to the entry id they are filed under.
    StoredEntryCorrupt {
        /// The entry id whose bytes failed the check.
        entry_id: String,
    },
    /// `[from_index, to_index)` is not a non-empty sub-range of `[0, tree_size)`.
    InvalidRange {
        /// Requested start, inclusive.
        from_index: u64,
        /// Requested end, exclusive.
        to_index: u64,
        /// The checkpoint's tree size.
        tree_size: u64,
    },
    /// A consistency proof was asked for from a larger tree to a smaller one.
    ConsistencyOrder {
        /// The size asked to be the older one.
        from: u64,
        /// The size asked to be the newer one.
        to: u64,
    },
    /// No authenticated checkpoint has this tree size.
    UnknownCheckpoint {
        /// The requested size.
        tree_size: u64,
    },
    /// The checkpoint is authenticated but not series-usable.
    CheckpointNotSeriesUsable {
        /// The requested size.
        tree_size: u64,
    },
    /// The series equivocates at or below the requested tree size.
    SeriesEquivocated {
        /// The requested size.
        tree_size: u64,
        /// The lowest divergent size.
        floor: u64,
    },
    /// The store does not hold every entry the checkpoint commits.
    IncompleteEntries {
        /// How many entries are held.
        have: u64,
        /// How many the checkpoint commits.
        need: u64,
    },
    /// A complete node of the log tree is absent from the stored tree material.
    TreeMaterialMissing {
        /// The node's level; level 0 holds leaf hashes.
        level: u32,
        /// The node's position within its level.
        node_index: u64,
    },
    /// A stored node of the log tree is present but is not 32 octets. A store makes its tree of the
    /// entry bytes and never meets one; this is for callers that read node rows themselves, and
    /// wherever it comes up it is passed on as a fault of the storage.
    TreeMaterialCorrupt {
        /// The node's level.
        level: u32,
        /// The node's position within its level.
        node_index: u64,
    },
    /// The stored entries do not recompute to the checkpoint's root.
    CheckpointRootMismatch {
        /// The checkpoint's tree size.
        tree_size: u64,
    },
    /// A checkpoint claims more entries than the index space can address.
    TreeSizeUnrepresentable {
        /// The claimed size.
        tree_size: u64,
        /// The largest addressable size.
        max: u64,
    },
    /// A checkpoint time is not in the required rendering.
    BadCheckpointTime {
        /// The value as supplied.
        value: String,
    },
    /// A checkpoint names another log than the configured one.
    WrongLogId {
        /// The configured log id.
        expected: String,
        /// The checkpoint's log id.
        got: String,
    },
    /// A checkpoint is signed by a key outside the governing key set.
    UnknownSigningKey {
        /// The key id carried.
        key_id: String,
    },
    /// A checkpoint-signing key is used below the index it becomes valid from.
    KeyNotYetActive {
        /// The key id carried.
        key_id: String,
        /// The key's activation index.
        valid_from_index: u64,
        /// The checkpoint's tree size.
        tree_size: u64,
    },
    /// No verified governance chain covers the tree size.
    GovernanceChainUnresolvable {
        /// The size resolution was attempted for.
        tree_size: u64,
    },
    /// An authentic governance statement declares another revision than the supported one.
    UnsupportedStatementVersion {
        /// The statement's entry index.
        entry_index: u64,
        /// The revision declared, if any.
        declared: Option<String>,
        /// The revision supported.
        expected: &'static str,
    },
    /// A duration is not of the form `P[n]DT[n]H[n]M[n]S`.
    BadDuration {
        /// The value as submitted.
        value: String,
    },
    /// A duration carries a calendar year or month.
    ProhibitedDurationComponent {
        /// The value as supplied.
        value: String,
        /// The prohibited designator.
        component: char,
    },
    /// A duration carries more than nine fractional-second digits.
    DurationFractionTooLong {
        /// The value as supplied.
        value: String,
    },
    /// A checkpoint cadence is zero.
    NonPositiveCadence {
        /// The value as supplied.
        value: String,
    },
    /// A cadence epoch is not an RFC 3339 instant at or after the Unix epoch.
    BadCadenceEpoch {
        /// The value as supplied.
        value: String,
    },
    /// The configuration declares no genesis producer key.
    NoGenesisProducerKeys,
    /// A checkpoint does not anchor the rotation it was offered for.
    NotRotationMaterial {
        /// The checkpoint's tree size.
        tree_size: u64,
        /// The rotating manifest named.
        manifest_entry_index: u64,
        /// Why it does not.
        reason: &'static str,
    },
    /// No rotation-anchoring checkpoint is held for the manifest.
    UnknownRotationProof {
        /// The rotating manifest asked for.
        manifest_entry_index: u64,
    },
    /// A checkpoint's signature does not verify.
    SignatureInvalid {
        /// The key it was checked against.
        key_id: String,
    },
    /// A carried raw checkpoint blob differs from the assembled one.
    RawBlobMismatch,
    /// A `(tree_size, checkpoint_time)` is already recorded with other content.
    SeriesMemberConflict {
        /// The contested size.
        tree_size: u64,
        /// The contested time.
        checkpoint_time: String,
    },
    /// A checkpoint is not consistent with a neighbouring series member.
    InconsistentWithNeighbour {
        /// The neighbour's tree size.
        neighbour_tree_size: u64,
        /// The checkpoint's tree size.
        tree_size: u64,
    },
    /// A configured key id differs from the id recomputed from its public key.
    ConfigKeyIdMismatch {
        /// The key id configured.
        configured: String,
        /// The key id recomputed.
        computed: String,
    },
    /// A value does not fit the index space.
    IndexOverflow {
        /// The value that does not fit.
        what: &'static str,
    },
    /// JSON parsing failed.
    Json(serde_json::Error),
    /// A primitive of `ahl_core` failed.
    Ahl(ahl_core::AhlError),
    /// A Merkle operation of `atl_core` failed.
    Atl(atl_core::AtlError),
    /// Stored rows cannot be made into a store.
    StoreInit(String),
}

/// A [`MirrorError`] with its texts as character sequences.
///
/// An error that comes from an outside crate is named by its origin alone.
#[allow(inconsistent_fields)]
pub ghost enum Fault {
    EntryIdMismatch { claimed: Seq<char>, computed: Seq<char> },
    MalformedEnvelope { reason: Seq<char> },
    NotCanonical,
    WrongAdaptorMetadata { got: Seq<char> },
    OutOfOrderIndex { expected: u64, got: u64 },
    IndexConflict { index: u64, existing_entry_id: Seq<char>, new_entry_id: Seq<char> },
    EntryIdAtDifferentIndex { entry_id: Seq<char>, existing_index: u64, requested_index: u64 },
    NotStaged { entry_id: Seq<char> },
    InclusionProofInvalid { entry_id: Seq<char>, leaf_index: u64, tree_size: u64 },
    StoredEntryCorrupt { entry_id: Seq<char> },
    InvalidRange { from_index: u64, to_index: u64, tree_size: u64 },
    ConsistencyOrder { from: u64, to: u64 },
    UnknownCheckpoint { tree_size: u64 },
    CheckpointNotSeriesUsable { tree_size: u64 },
    SeriesEquivocated { tree_size: u64, floor: u64 },
    IncompleteEntries { have: u64, need: u64 },
    TreeMaterialMissing { level: u32, node_index: u64 },
    TreeMaterialCorrupt { level: u32, node_index: u64 },
    CheckpointRootMismatch { tree_size: u64 },
    TreeSizeUnrepresentable { tree_size: u64, max: u64 },
    BadCheckpointTime { value: Seq<char> },
    WrongLogId { expected: Seq<char>, got: Seq<char> },
    UnknownSigningKey { key_id: Seq<char> },
    KeyNotYetActive { key_id: Seq<char>, valid_from_index: u64, tree_size: u64 },
    GovernanceChainUnresolvable { tree_size: u64 },
    UnsupportedStatementVersion { entry_index: u64, declared: Option<Seq<char>>, expected: Seq<char> },
    BadDuration { value: Seq<char> },
    ProhibitedDurationComponent { value: Seq<char>, component: char },
    DurationFractionTooLong { value: Seq<char> },
    NonPositiveCadence { value: Seq<char> },
    BadCadenceEpoch { value: Seq<char> },
    NoGenesisProducerKeys,
    NotRotationMaterial { tree_size: u64, manifest_entry_index: u64, reason: Seq<char> },
    UnknownRotationProof { manifest_entry_index: u64 },
    SignatureInvalid { key_id: Seq<char> },
    RawBlobMismatch,
    SeriesMemberConflict { tree_size: u64, checkpoint_time: Seq<char> },
    InconsistentWithNeighbour { neighbour_tree_size: u64, tree_size: u64 },
    ConfigKeyIdMismatch { configured: Seq<char>, computed: Seq<char> },
    IndexOverflow { what: Seq<char> },
    Json,
    Ahl,
    Atl,
    StoreInit(Seq<char>),
}

impl View for MirrorError {
    type V = Fault;

    open spec fn view(&self) -> Fault {
        match *self {
            MirrorError::EntryIdMismatch { claimed, computed } =>
                Fault::EntryIdMismatch { claimed: claimed@, computed: computed@ },
            MirrorError::MalformedEnvelope { reason } =>
                Fault::MalformedEnvelope { reason: reason@ },
            MirrorError::NotCanonical => Fault::NotCanonical,
            MirrorError::WrongAdaptorMetadata { got } => Fault::WrongAdaptorMetadata { got: got@ },
            MirrorError::OutOfOrderIndex { expected, got } =>
                Fault::OutOfOrderIndex { expected, got },
            MirrorError::IndexConflict { index, existing_entry_id, new_entry_id } =>
                Fault::IndexConflict { index, existing_entry_id: existing_entry_id@, new_entry_id: new_entry_id@ },
            MirrorError::EntryIdAtDifferentIndex { entry_id, existing_index, requested_index } =>
                Fault::EntryIdAtDifferentIndex { entry_id: entry_id@, existing_index, requested_index },
            MirrorError::NotStaged { entry_id } => Fault::NotStaged { entry_id: entry_id@ },
            MirrorError::InclusionProofInvalid { entry_id, leaf_index, tree_size } =>
                Fault::InclusionProofInvalid { entry_id: entry_id@, leaf_index, tree_size },
            MirrorError::StoredEntryCorrupt { entry_id } =>
                Fault::StoredEntryCorrupt { entry_id: entry_id@ },
            MirrorError::InvalidRange { from_index, to_index, tree_size } =>
                Fault::InvalidRange { from_index, to_index, tree_size },
            MirrorError::ConsistencyOrder { from, to } => Fault::ConsistencyOrder { from, to },
            MirrorError::UnknownCheckpoint { tree_size } => Fault::UnknownCheckpoint { tree_size },
            MirrorError::CheckpointNotSeriesUsable { tree_size } =>
                Fault::CheckpointNotSeriesUsable { tree_size },
            MirrorError::SeriesEquivocated { tree_size, floor } =>
                Fault::SeriesEquivocated { tree_size, floor },
            MirrorError::IncompleteEntries { have, need } =>
                Fault::IncompleteEntries { have, need },
            MirrorError::TreeMaterialMissing { level, node_index } =>
                Fault::TreeMaterialMissing { level, node_index },
            MirrorError::TreeMaterialCorrupt { level, node_index } =>
                Fault::TreeMaterialCorrupt { level, node_index },
            MirrorError::CheckpointRootMismatch { tree_size } =>
                Fault::CheckpointRootMismatch { tree_size },
            MirrorError::TreeSizeUnrepresentable { tree_size, max } =>
                Fault::TreeSizeUnrepresentable { tree_size, max },
            MirrorError::BadCheckpointTime { value } => Fault::BadCheckpointTime { value: value@ },
            MirrorError::WrongLogId { expected, got } =>
                Fault::WrongLogId { expected: expected@, got: got@ },
            MirrorError::UnknownSigningKey { key_id } =>
                Fault::UnknownSigningKey { key_id: key_id@ },
            MirrorError::KeyNotYetActive { key_id, valid_from_index, tree_size } =>
                Fault::KeyNotYetActive { key_id: key_id@, valid_from_index, tree_size },
            MirrorError::GovernanceChainUnresolvable { tree_size } =>
                Fault::GovernanceChainUnresolvable { tree_size },
            MirrorError::UnsupportedStatementVersion { entry_index, declared, expected } =>
                Fault::UnsupportedStatementVersion { entry_index, declared: opt_view(declared), expected: expected@ },
            MirrorError::BadDuration { value } => Fault::BadDuration { value: value@ },
            MirrorError::ProhibitedDurationComponent { value, component } =>
                Fault::ProhibitedDurationComponent { value: value@, component },
            MirrorError::DurationFractionTooLong { value } =>
                Fault::DurationFractionTooLong { value: value@ },
            MirrorError::NonPositiveCadence { value } =>
                Fault::NonPositiveCadence { value: value@ },
            MirrorError::BadCadenceEpoch { value } => Fault::BadCadenceEpoch { value: value@ },
            MirrorError::NoGenesisProducerKeys => Fault::NoGenesisProducerKeys,
            MirrorError::NotRotationMaterial { tree_size, manifest_entry_index, reason } =>
                Fault::NotRotationMaterial { tree_size, manifest_entry_index, reason: reason@ },
            MirrorError::UnknownRotationProof { manifest_entry_index } =>
                Fault::UnknownRotationProof { manifest_entry_index },
            MirrorError::SignatureInvalid { key_id } => Fault::SignatureInvalid { key_id: key_id@ },
            MirrorError::RawBlobMismatch => Fault::RawBlobMismatch,
            MirrorError::SeriesMemberConflict { tree_size, checkpoint_time } =>
                Fault::SeriesMemberConflict { tree_size, checkpoint_time: checkpoint_time@ },
            MirrorError::InconsistentWithNeighbour { neighbour_tree_size, tree_size } =>
                Fault::InconsistentWithNeighbour { neighbour_tree_size, tree_size },
            MirrorError::ConfigKeyIdMismatch { configured, computed } =>
                Fault::ConfigKeyIdMismatch { configured: configured@, computed: computed@ },
            MirrorError::IndexOverflow { what } => Fault::IndexOverflow { what: what@ },
            MirrorError::Json(_) => Fault::Json,
            MirrorError::Ahl(_) => Fault::Ahl,
            MirrorError::Atl(_) => Fault::Atl,
            MirrorError::StoreInit(reason) => Fault::StoreInit(reason@),
        }
    }
}

/// An optional text as an optional character sequence.
pub open spec fn opt_view(text: Option<String>) -> Option<Seq<char>> {
    match text {
        Some(t) => Some(t@),
        None => None,
    }
}

/// A result with its error as a [`Fault`].
pub open spec fn outcome<T>(result: MirrorResult<T>) -> Result<T, Fault> {
    match result {
        Ok(value) => Ok(value),
        Err(error) => Err(error@),
    }
}

/// Whether `value` is what is owed.
pub open spec fn gives<T>(owed: Result<T, Fault>, value: T) -> bool {
    owed == Ok::<T, Fault>(value)
}

/// Whether `error` is what is owed.
pub open spec fn refuses<T>(owed: Result<T, Fault>, error: MirrorError) -> bool {
    owed == Err::<T, Fault>(error@)
}

} // verus!
