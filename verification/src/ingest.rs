//! Staging and promotion.
//!
//! Bytes are staged once they are a canonical envelope under their own entry id. They become
//! canonical only with an inclusion proof under a checkpoint: bytes that were never anchored
//! have none, so they never take an index from the entry that was.

use vstd::prelude::*;

use crate::error::{gives, refuses, Fault, MirrorError, MirrorResult};
use crate::geometry::hashes_view;
use crate::json::{json_of, json_parsed, json_tree, parse_json, Json, JsonTree};
use crate::metadata::{adaptor_metadata_bytes, leaf_of, log_leaf_hash, metadata_octets};
use crate::primitives::{
    entry_id_of, family_text, hash_of_text, jcs, jcs_octets, lossy_text, sha256, utf8_lossy,
};
use crate::proofs::{inclusion_verdict, verify_inclusion};
use crate::series::{Checkpoint, CheckpointView};
use crate::store::{InsertOutcome, Store, StoreView};
use crate::text::{same_bytes, same_text, texts_view};

verus! {

// ---- staging ----

/// What keeps a document from being an envelope: it is an object with an object `payload` and
/// a non-empty array `signatures`.
pub open spec fn shape_fault(document: JsonTree) -> Option<Fault> {
    if !(document is Object) {
        Some(Fault::MalformedEnvelope { reason: "not a JSON object"@ })
    } else if !(document.member("payload"@) matches Some(JsonTree::Object(_))) {
        Some(Fault::MalformedEnvelope { reason: "missing object field `payload`"@ })
    } else if !(document.member("signatures"@) matches Some(JsonTree::Array(items)) && items.len()
        > 0) {
        Some(Fault::MalformedEnvelope { reason: "missing non-empty array field `signatures`"@ })
    } else {
        None
    }
}

/// Refuse a document that is not an envelope.
pub fn check_shape(document: &Json) -> (checked: MirrorResult<()>)
    ensures
        match checked {
            Ok(()) => shape_fault(document@) is None,
            Err(error) => shape_fault(document@) == Some(error@),
        },
{
    match document {
        Json::Object(_) => {},
        _ => {
            return Err(MirrorError::MalformedEnvelope { reason: "not a JSON object" });
        },
    }
    match document.member("payload") {
        Some(Json::Object(_)) => {},
        _ => {
            return Err(
                MirrorError::MalformedEnvelope { reason: "missing object field `payload`" },
            );
        },
    }
    match document.member("signatures") {
        Some(Json::Array(items)) => {
            if items.len() > 0 {
                return Ok(());
            }
        },
        _ => {},
    }
    Err(MirrorError::MalformedEnvelope { reason: "missing non-empty array field `signatures`" })
}

/// What keeps bytes from being staged once they are an envelope: they are their own canonical
/// form, and the metadata's canonical form is the fixed adaptor metadata.
pub open spec fn form_fault(bytes: Seq<u8>, canonical: Seq<u8>, metadata: Seq<u8>) -> Option<
    Fault,
> {
    if canonical != bytes {
        Some(Fault::NotCanonical)
    } else if metadata != metadata_octets() {
        Some(Fault::WrongAdaptorMetadata { got: lossy_text(metadata) })
    } else {
        None
    }
}

/// Refuse bytes that differ from their canonical form, and metadata that is not the fixed one.
pub fn check_form(bytes: &[u8], canonical: &[u8], metadata: &[u8]) -> (checked: MirrorResult<()>)
    ensures
        match checked {
            Ok(()) => form_fault(bytes@, canonical@, metadata@) is None,
            Err(error) => form_fault(bytes@, canonical@, metadata@) == Some(error@),
        },
{
    if !same_bytes(canonical, bytes) {
        return Err(MirrorError::NotCanonical);
    }
    let fixed: Vec<u8> = adaptor_metadata_bytes();
    if !same_bytes(metadata, fixed.as_slice()) {
        return Err(MirrorError::WrongAdaptorMetadata { got: utf8_lossy(metadata) });
    }
    Ok(())
}

/// What keeps bytes from being staged under a claimed id, the first check that fails.
pub open spec fn candidate_fault(claimed: Seq<char>, bytes: Seq<u8>, metadata: JsonTree) -> Option<
    Fault,
> {
    if claimed != family_text(sha256(bytes)) {
        Some(Fault::EntryIdMismatch { claimed, computed: family_text(sha256(bytes)) })
    } else {
        match json_parsed(bytes) {
            None => Some(Fault::Json),
            Some(document) => match shape_fault(document) {
                Some(fault) => Some(fault),
                None => form_fault(bytes, jcs_octets(document), jcs_octets(metadata)),
            },
        }
    }
}

impl StoreView {
    /// Staging bytes that were submitted under a claimed id.
    pub open spec fn submitting(self, claimed: Seq<char>, bytes: Seq<u8>, metadata: JsonTree) -> Result<
        (StoreView, InsertOutcome),
        Fault,
    > {
        match candidate_fault(claimed, bytes, metadata) {
            Some(fault) => Err(fault),
            None => self.staging(claimed, bytes),
        }
    }
}

/// Check submitted bytes and, where every check passes, stage them under their entry id.
pub fn stage_entry(
    store: &mut Store,
    claimed_entry_id: &str,
    bytes: &[u8],
    atl_metadata: &serde_json::Value,
) -> (staged: MirrorResult<InsertOutcome>)
    requires
        old(store).wf(),
    ensures
        final(store).wf(),
        match staged {
            Ok(done) => gives(
                old(store)@.submitting(claimed_entry_id@, bytes@, json_tree(*atl_metadata)),
                (final(store)@, done),
            ),
            Err(error) => refuses(
                old(store)@.submitting(claimed_entry_id@, bytes@, json_tree(*atl_metadata)),
                error,
            ) && final(store)@ == old(store)@,
        },
{
    let computed: String = entry_id_of(bytes);
    if !same_text(computed.as_str(), claimed_entry_id) {
        return Err(
            MirrorError::EntryIdMismatch { claimed: claimed_entry_id.to_owned(), computed },
        );
    }
    let value: serde_json::Value = parse_json(bytes)?;
    check_shape(&json_of(&value))?;
    let canonical: Vec<u8> = jcs(&value);
    let metadata: Vec<u8> = jcs(atl_metadata);
    check_form(bytes, canonical.as_slice(), metadata.as_slice())?;
    store.stage_entry(computed.as_str(), bytes)
}

// ---- promotion ----

/// The hashes of an inclusion path given as `sha256:<hex>` texts, where every one is such a
/// text.
pub open spec fn path_of(texts: Seq<Seq<char>>) -> Option<Seq<Seq<u8>>>
    decreases texts.len(),
{
    if texts.len() == 0 {
        Some(Seq::empty())
    } else {
        match (path_of(texts.drop_last()), hash_of_text(texts.last())) {
            (Some(path), Some(hash)) => Some(path.push(hash)),
            _ => None,
        }
    }
}

/// A text of a path that is no hash leaves the path without hashes.
proof fn a_bad_text_spoils_the_path(texts: Seq<Seq<char>>, count: int)
    requires
        0 <= count <= texts.len(),
        path_of(texts.take(count)) is None,
    ensures
        path_of(texts) is None,
    decreases texts.len(),
{
    if count < texts.len() {
        assert(texts.drop_last().take(count) =~= texts.take(count));
        a_bad_text_spoils_the_path(texts.drop_last(), count);
    } else {
        assert(texts.take(count) =~= texts);
    }
}

/// Read an inclusion path from its texts.
pub fn parse_path(texts: &Vec<String>) -> (path: MirrorResult<Vec<[u8; 32]>>)
    ensures
        match path {
            Ok(hashes) => path_of(texts_view(texts@)) == Some(hashes_view(hashes@)),
            Err(error) => path_of(texts_view(texts@)) is None && error@ == Fault::Ahl,
        },
{
    let ghost listed = texts_view(texts@);
    let mut hashes: Vec<[u8; 32]> = Vec::new();
    let mut i: usize = 0;
    assert(hashes_view(hashes@) =~= Seq::<Seq<u8>>::empty());
    while i < texts.len()
        invariant
            i <= texts@.len(),
            listed == texts_view(texts@),
            path_of(listed.take(i as int)) == Some(hashes_view(hashes@)),
        decreases texts.len() - i,
    {
        proof {
            assert(listed.take(i + 1).drop_last() =~= listed.take(i as int));
            assert(listed.take(i + 1).last() == texts@[i as int]@);
        }
        match ahl_core::parse_hash_hex(texts[i].as_str()) {
            Ok(hash) => {
                let ghost before = hashes_view(hashes@);
                hashes.push(hash);
                assert(hashes_view(hashes@) =~= before.push(hash@));
            },
            Err(error) => {
                proof {
                    a_bad_text_spoils_the_path(listed, i + 1);
                }
                return Err(MirrorError::Ahl(error));
            },
        }
        i += 1;
    }
    assert(listed.take(i as int) =~= listed);
    Ok(hashes)
}

/// Whether an inclusion path, given as texts, opens a root for an entry's leaf, or why that
/// cannot be judged: a text is no hash, or the proof is structurally impossible.
pub open spec fn inclusion_of(
    bytes: Seq<u8>,
    index: u64,
    size: u64,
    texts: Seq<Seq<char>>,
    root: Seq<u8>,
) -> Result<bool, Fault> {
    match path_of(texts) {
        None => Err(Fault::Ahl),
        Some(path) => match inclusion_verdict(leaf_of(bytes), index as nat, size as nat, path, root) {
            None => Err(Fault::Atl),
            Some(opens) => Ok(opens),
        },
    }
}

/// Judge an inclusion proof of an entry's leaf under a root. Nothing is read but the
/// arguments, so the root need not be authenticated yet.
pub fn verify_inclusion_for(
    bytes: &[u8],
    leaf_index: u64,
    tree_size: u64,
    inclusion_path: &Vec<String>,
    root: &[u8; 32],
) -> (verdict: MirrorResult<bool>)
    ensures
        match verdict {
            Ok(opens) => gives(
                inclusion_of(bytes@, leaf_index, tree_size, texts_view(inclusion_path@), root@),
                opens,
            ),
            Err(error) => refuses(
                inclusion_of(bytes@, leaf_index, tree_size, texts_view(inclusion_path@), root@),
                error,
            ),
        },
{
    let leaf: [u8; 32] = log_leaf_hash(bytes);
    let path: Vec<[u8; 32]> = parse_path(inclusion_path)?;
    match verify_inclusion(&leaf, leaf_index, tree_size, &path, root) {
        Ok(opens) => Ok(opens),
        Err(error) => Err(MirrorError::Atl(error)),
    }
}

impl StoreView {
    /// Promoting a staged entry on the strength of an inclusion proof under a checkpoint.
    pub open spec fn proving(
        self,
        cp: CheckpointView,
        entry_id: Seq<char>,
        index: u64,
        texts: Seq<Seq<char>>,
    ) -> Result<(StoreView, InsertOutcome), Fault> {
        if !self.staged.contains_key(entry_id) {
            Err(Fault::NotStaged { entry_id })
        } else {
            match hash_of_text(cp.root_hash) {
                None => Err(Fault::Ahl),
                Some(root) => match inclusion_of(
                    self.staged[entry_id],
                    index,
                    cp.tree_size,
                    texts,
                    root,
                ) {
                    Err(fault) => Err(fault),
                    Ok(false) => Err(
                        Fault::InclusionProofInvalid {
                            entry_id,
                            leaf_index: index,
                            tree_size: cp.tree_size,
                        },
                    ),
                    Ok(true) => self.promoting(index, entry_id),
                },
            }
        }
    }
}

/// Promote a staged entry to canonical storage, given an inclusion proof of its leaf under a
/// checkpoint. The checkpoint's root is taken as given: the caller has authenticated it.
pub fn promote_entry(
    store: &mut Store,
    checkpoint: &Checkpoint,
    entry_id: &str,
    leaf_index: u64,
    inclusion_path: &Vec<String>,
) -> (promoted: MirrorResult<InsertOutcome>)
    requires
        old(store).wf(),
    ensures
        final(store).wf(),
        match promoted {
            Ok(done) => gives(
                old(store)@.proving(
                    checkpoint@,
                    entry_id@,
                    leaf_index,
                    texts_view(inclusion_path@),
                ),
                (final(store)@, done),
            ),
            Err(error) => refuses(
                old(store)@.proving(
                    checkpoint@,
                    entry_id@,
                    leaf_index,
                    texts_view(inclusion_path@),
                ),
                error,
            ) && final(store)@ == old(store)@,
        },
{
    let bytes: Vec<u8> = match store.get_staged(entry_id)? {
        Some(bytes) => bytes,
        None => {
            return Err(MirrorError::NotStaged { entry_id: entry_id.to_owned() });
        },
    };
    let root: [u8; 32] = match ahl_core::parse_hash_hex(checkpoint.root_hash.as_str()) {
        Ok(root) => root,
        Err(error) => {
            return Err(MirrorError::Ahl(error));
        },
    };
    if !verify_inclusion_for(
        bytes.as_slice(),
        leaf_index,
        checkpoint.tree_size,
        inclusion_path,
        &root,
    )? {
        return Err(
            MirrorError::InclusionProofInvalid {
                entry_id: entry_id.to_owned(),
                leaf_index,
                tree_size: checkpoint.tree_size,
            },
        );
    }
    store.promote_entry(leaf_index, entry_id)
}

// ---- laws ----

impl StoreView {
    /// Whether everything staged and everything canonical is a canonical envelope filed under
    /// its own entry id.
    pub open spec fn content_addressed(self) -> bool {
        &&& forall|id: Seq<char>| #[trigger]
            self.staged.contains_key(id) ==> is_candidate(id, self.staged[id])
        &&& forall|i: int|
            0 <= i < self.entries.len() ==> is_candidate(
                (#[trigger] self.entries[i]).entry_id,
                self.entries[i].envelope,
            )
    }
}

/// Whether bytes are a canonical envelope and the id is theirs.
pub open spec fn is_candidate(id: Seq<char>, bytes: Seq<u8>) -> bool {
    &&& id == family_text(sha256(bytes))
    &&& json_parsed(bytes) is Some
    &&& shape_fault(json_parsed(bytes)->0) is None
    &&& jcs_octets(json_parsed(bytes)->0) == bytes
}

/// A store that is filled by submission and promotion alone holds canonical envelopes under
/// their own entry ids, staged and canonical alike.
pub proof fn only_canonical_envelopes_are_held(
    store: StoreView,
    id: Seq<char>,
    bytes: Seq<u8>,
    metadata: JsonTree,
    cp: CheckpointView,
    index: u64,
    texts: Seq<Seq<char>>,
)
    requires
        store.content_addressed(),
    ensures
        store.submitting(id, bytes, metadata) matches Ok((after, _)) ==> after.content_addressed(),
        store.proving(cp, id, index, texts) matches Ok((after, _)) ==> after.content_addressed(),
{
    if let Ok((after, InsertOutcome::Inserted)) = store.proving(cp, id, index, texts) {
        assert forall|i: int| 0 <= i < after.entries.len() implies is_candidate(
            (#[trigger] after.entries[i]).entry_id,
            after.entries[i].envelope,
        ) by {
            if i < store.entries.len() {
                assert(after.entries[i] == store.entries[i]);
            }
        }
    }
}

/// Staging says nothing of position: no submission changes what is canonical, the tree, the
/// series or the anchors, no candidate that is staged is lost, and none under another id is kept
/// from being staged.
pub proof fn staging_claims_no_position(
    store: StoreView,
    id: Seq<char>,
    bytes: Seq<u8>,
    metadata: JsonTree,
)
    ensures
        store.submitting(id, bytes, metadata) matches Ok((after, _)) ==> after == (StoreView {
            staged: after.staged,
            ..store
        }) && (forall|other: Seq<char>| #[trigger]
            store.staged.contains_key(other) ==> after.staged.contains_key(other)
                && after.staged[other] == store.staged[other]) && (forall|
            other: Seq<char>,
            candidate: Seq<u8>,
            claimed: JsonTree,
        |
            other != id ==> ((#[trigger] after.submitting(other, candidate, claimed)) is Ok
                <==> store.submitting(other, candidate, claimed) is Ok)),
{
}

/// Submitting the same bytes again changes nothing and says so.
pub proof fn staging_again_is_idempotent(
    store: StoreView,
    id: Seq<char>,
    bytes: Seq<u8>,
    metadata: JsonTree,
)
    ensures
        store.submitting(id, bytes, metadata) matches Ok((after, _)) ==> after.submitting(
            id,
            bytes,
            metadata,
        ) == Ok::<(StoreView, InsertOutcome), Fault>((after, InsertOutcome::AlreadyPresent)),
{
}

/// Nothing is promoted without a proof: where an entry becomes canonical, its path opens the
/// checkpoint's root for the leaf of exactly the staged bytes at exactly that index, and the
/// index was the next one.
pub proof fn only_proven_bytes_become_canonical(
    store: StoreView,
    cp: CheckpointView,
    id: Seq<char>,
    index: u64,
    texts: Seq<Seq<char>>,
)
    ensures
        store.proving(cp, id, index, texts) matches Ok((after, InsertOutcome::Inserted)) ==> {
            &&& store.staged.contains_key(id)
            &&& hash_of_text(cp.root_hash) is Some
            &&& path_of(texts) is Some
            &&& inclusion_verdict(
                leaf_of(store.staged[id]),
                index as nat,
                cp.tree_size as nat,
                path_of(texts)->0,
                hash_of_text(cp.root_hash)->0,
            ) == Some(true)
            &&& index == store.entries.len()
            &&& after.entries.len() == index + 1
            &&& after.entries[index as int].entry_id == id
            &&& after.entries[index as int].envelope == store.staged[id]
            &&& after.entries.take(index as int) == store.entries
        },
{
    if let Ok((after, InsertOutcome::Inserted)) = store.proving(cp, id, index, texts) {
        assert(after.entries.take(index as int) =~= store.entries);
    }
}

/// When bytes are accepted for staging, in full. They are under their own id, a JSON document
/// that is an object with an object `payload` and a non-empty array `signatures`, their own
/// canonical form, and with the fixed metadata; and they are refused for the first of these that
/// fails.
pub proof fn bytes_are_staged_as_what_they_are(
    store: StoreView,
    claimed: Seq<char>,
    bytes: Seq<u8>,
    metadata: JsonTree,
)
    ensures
        ({
            let submitted = store.submitting(claimed, bytes, metadata);
            let id = family_text(sha256(bytes));
            let document = json_parsed(bytes);
            let is_object = document matches Some(JsonTree::Object(_));
            let payload = document->0.member("payload"@);
            let has_payload = payload matches Some(JsonTree::Object(_));
            let signatures = document->0.member("signatures"@);
            let has_signatures = signatures matches Some(JsonTree::Array(items)) && items.len() > 0;
            if claimed != id {
                submitted == Err::<(StoreView, InsertOutcome), Fault>(
                    Fault::EntryIdMismatch { claimed, computed: id },
                )
            } else if document is None {
                submitted == Err::<(StoreView, InsertOutcome), Fault>(Fault::Json)
            } else if !is_object {
                submitted == Err::<(StoreView, InsertOutcome), Fault>(
                    Fault::MalformedEnvelope { reason: "not a JSON object"@ },
                )
            } else if !has_payload {
                submitted == Err::<(StoreView, InsertOutcome), Fault>(
                    Fault::MalformedEnvelope { reason: "missing object field `payload`"@ },
                )
            } else if !has_signatures {
                submitted == Err::<(StoreView, InsertOutcome), Fault>(
                    Fault::MalformedEnvelope {
                        reason: "missing non-empty array field `signatures`"@,
                    },
                )
            } else if jcs_octets(document->0) != bytes {
                submitted == Err::<(StoreView, InsertOutcome), Fault>(Fault::NotCanonical)
            } else if jcs_octets(metadata) != metadata_octets() {
                submitted == Err::<(StoreView, InsertOutcome), Fault>(
                    Fault::WrongAdaptorMetadata { got: lossy_text(jcs_octets(metadata)) },
                )
            } else {
                submitted == store.staging(claimed, bytes)
            }
        }),
{
}

/// A path is read from its texts one by one: it has a hash for every text, in order, and none at
/// all where one of them is no hash text.
pub proof fn a_path_is_read_text_by_text(texts: Seq<Seq<char>>)
    ensures
        match path_of(texts) {
            Some(path) => path.len() == texts.len() && forall|i: int|
                0 <= i < texts.len() ==> hash_of_text(#[trigger] texts[i]) == Some(path[i]),
            None => exists|i: int| 0 <= i < texts.len() && hash_of_text(#[trigger] texts[i]) is None,
        },
    decreases texts.len(),
{
    if texts.len() > 0 {
        let rest = texts.drop_last();
        let at = texts.len() - 1;
        a_path_is_read_text_by_text(rest);
        assert forall|i: int| 0 <= i < rest.len() implies #[trigger] texts[i] == rest[i] by {}
        if path_of(rest) is None {
            let i = choose|i: int| 0 <= i < rest.len() && hash_of_text(#[trigger] rest[i]) is None;
            assert(hash_of_text(texts[i]) is None);
        } else if hash_of_text(texts.last()) is None {
            assert(hash_of_text(texts[at]) is None);
        }
    }
}

/// A proof is judged for the leaf of exactly the bytes, at exactly the index and size, against
/// exactly the root: what cannot be read is refused, what is structurally impossible is refused,
/// and anything else opens the root or does not.
pub proof fn an_inclusion_is_judged_for_its_own_bytes(
    bytes: Seq<u8>,
    index: u64,
    size: u64,
    texts: Seq<Seq<char>>,
    root: Seq<u8>,
)
    ensures
        (exists|i: int| 0 <= i < texts.len() && hash_of_text(#[trigger] texts[i]) is None)
            ==> inclusion_of(bytes, index, size, texts, root) == Err::<bool, Fault>(Fault::Ahl),
        forall|path: Seq<Seq<u8>>|
            path.len() == texts.len() && (forall|i: int|
                0 <= i < texts.len() ==> hash_of_text(#[trigger] texts[i]) == Some(path[i]))
                ==> match #[trigger] inclusion_verdict(
                leaf_of(bytes),
                index as nat,
                size as nat,
                path,
                root,
            ) {
                None => inclusion_of(bytes, index, size, texts, root) == Err::<bool, Fault>(
                    Fault::Atl,
                ),
                Some(opens) => inclusion_of(bytes, index, size, texts, root) == Ok::<bool, Fault>(
                    opens,
                ),
            },
{
    a_path_is_read_text_by_text(texts);
    assert forall|path: Seq<Seq<u8>>|
        path.len() == texts.len() && (forall|i: int|
            0 <= i < texts.len() ==> hash_of_text(#[trigger] texts[i]) == Some(
                path[i],
            )) implies match #[trigger] inclusion_verdict(
        leaf_of(bytes),
        index as nat,
        size as nat,
        path,
        root,
    ) {
        None => inclusion_of(bytes, index, size, texts, root) == Err::<bool, Fault>(Fault::Atl),
        Some(opens) => inclusion_of(bytes, index, size, texts, root) == Ok::<bool, Fault>(opens),
    } by {
        if path_of(texts) is Some {
            let read = path_of(texts)->0;
            assert forall|i: int| 0 <= i < path.len() implies #[trigger] path[i] == read[i] by {
                assert(hash_of_text(texts[i]) == Some(path[i]));
            }
            assert(path =~= read);
        } else {
            let i = choose|i: int| 0 <= i < texts.len() && hash_of_text(#[trigger] texts[i]) is None;
            assert(hash_of_text(texts[i]) == Some(path[i]));
        }
    }
}

/// A promotion on a proof succeeds exactly where the entry is staged, the checkpoint's root is a
/// hash text, the path opens it for the staged bytes at the index, and the index can be taken; it
/// then does what the promotion does. Otherwise it is refused for the first of these that fails.
pub proof fn a_promotion_rests_on_its_proof(
    store: StoreView,
    cp: CheckpointView,
    id: Seq<char>,
    index: u64,
    texts: Seq<Seq<char>>,
)
    ensures
        ({
            let promoted = store.proving(cp, id, index, texts);
            let judged = inclusion_of(
                store.staged[id],
                index,
                cp.tree_size,
                texts,
                hash_of_text(cp.root_hash)->0,
            );
            if !store.staged.contains_key(id) {
                promoted == Err::<(StoreView, InsertOutcome), Fault>(
                    Fault::NotStaged { entry_id: id },
                )
            } else if hash_of_text(cp.root_hash) is None {
                promoted == Err::<(StoreView, InsertOutcome), Fault>(Fault::Ahl)
            } else if judged is Err {
                promoted == Err::<(StoreView, InsertOutcome), Fault>(judged->Err_0)
            } else if judged == Ok::<bool, Fault>(false) {
                promoted == Err::<(StoreView, InsertOutcome), Fault>(
                    Fault::InclusionProofInvalid {
                        entry_id: id,
                        leaf_index: index,
                        tree_size: cp.tree_size,
                    },
                )
            } else {
                promoted == store.promoting(index, id)
            }
        }),
{
}

} // verus!
