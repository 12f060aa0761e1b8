use std::collections::BTreeMap;

use ahl_core::receipt::{
    verify_receipt_report, AdaptorCapabilities, AdaptorProfile, Limits, Outcome, TrustPolicy,
};
use ahl_mirror::checkpoint::{
    checkpoint_blob, ingest_checkpoint, Admission, Checkpoint, PendingPromotion,
};
use ahl_mirror::config::{Config, ConfigSpec, KeyObjectSpec};
use ahl_mirror::error::{MirrorError, MirrorResult};
use ahl_mirror::frontier::{itub, series_view, CheckpointState};
use ahl_mirror::ingest::stage_entry;
use ahl_mirror::metadata::log_leaf_hash;
use ahl_mirror::range::{build_range_response, verify_range_response, RangeResponse};
use ahl_mirror::retrieval::{retrieve_by_id, Retrieved};
use ahl_mirror::service::{
    consistency_between, decode_base64_field, encode_base64_field, promote_under,
    reported_checkpoint, rotation_proof_element, series_usable_checkpoint, staged_word, status_of,
    stored_status,
};
use ahl_mirror::store::{InsertOutcome, Store};
use serde_json::Value;
use sha2::Digest as _;

const PROFILE_DOCUMENT: &[u8] = b"ahl-adaptor-atl-v1 test artifact";

const ROTATING_INDEX: u64 = 1;

fn object(members: Vec<(&str, Value)>) -> Value {
    Value::Object(members.into_iter().map(|(name, value)| (name.to_owned(), value)).collect())
}

fn array(items: Vec<Value>) -> Value {
    Value::Array(items)
}

fn adaptor_metadata_object() -> Value {
    object(vec![("ahl_adaptor", Value::from("ahl-adaptor-atl-v1"))])
}

struct TestHarness {
    store: Store,
    config: Config,
    log_key: ahl_core::TestKey,
    log_id: String,
    genesis_leaf: [u8; 32],
}

fn entry_id_of(bytes: &[u8]) -> String {
    format!("sha256:{}", hex::encode(sha2::Sha256::digest(bytes)))
}

fn genesis_manifest_bytes(
    log_id: &str,
    producer: &ahl_core::TestKey,
    log_key: &ahl_core::TestKey,
    epoch: &str,
) -> Vec<u8> {
    let payload = object(vec![
        ("type", Value::from("manifest")),
        ("ahl_version", Value::from(ahl_core::AHL_VERSION)),
        ("producer", Value::from("producer-1")),
        ("keys", array(vec![object(vec![
            ("key_id", Value::from(producer.key_id())),
            ("pubkey", Value::from(producer.pubkey())),
            ("valid_from_index", Value::from(0)),
        ])])),
        ("log", object(vec![
            ("log_id", Value::from(log_id)),
            ("operator", Value::from("op-1")),
            ("adaptor", object(vec![
                ("id", Value::from("ahl-adaptor-atl-v1")),
                ("hash", Value::from("sha256:00")),
            ])),
            ("checkpoint_cadence", Value::from("PT5M")),
            ("cadence_epoch", Value::from(epoch)),
            ("witness_grace_period", Value::from("PT10M")),
            ("keys", array(vec![object(vec![
                ("key_id", Value::from(log_key.key_id())),
                ("pubkey", Value::from(log_key.pubkey())),
                ("valid_from_index", Value::from(0)),
            ])])),
        ])),
    ]);
    ahl_core::jcs(&ahl_core::envelope(payload, producer))
}

fn harness_with(
    genesis_bytes: &[u8],
    producer: &ahl_core::TestKey,
    log_key: ahl_core::TestKey,
    log_id: String,
) -> TestHarness {
    let genesis_id = entry_id_of(genesis_bytes);
    let mut store = Store::open_in_memory().expect("in-memory store");
    store.stage_entry(&genesis_id, genesis_bytes).expect("stage genesis");
    store.promote_entry(0, &genesis_id).expect("promote genesis");
    let config = Config::resolve(&ConfigSpec {
        log_id: log_id.clone(),
        genesis_manifest_entry_id: genesis_id,
        genesis_producer_keys: vec![KeyObjectSpec {
            key_id: producer.key_id(),
            pubkey: producer.pubkey(),
            valid_from_index: 0,
        }],
        store_path: ":memory:".to_owned(),
    })
    .expect("valid config");
    TestHarness { store, config, log_key, log_id, genesis_leaf: log_leaf_hash(genesis_bytes) }
}

fn harness() -> TestHarness {
    let producer = ahl_core::TestKey::from_seed_hex("producer", &"90".repeat(32)).expect("seed");
    let log_key = ahl_core::TestKey::from_seed_hex("log-1", &"42".repeat(32)).expect("seed");
    let log_id = format!("sha256:{}", "77".repeat(32));
    let genesis_bytes =
        genesis_manifest_bytes(&log_id, &producer, &log_key, "2026-01-01T00:00:00Z");
    harness_with(&genesis_bytes, &producer, log_key, log_id)
}

fn envelope_bytes(n: u8) -> Vec<u8> {
    ahl_core::jcs(&object(vec![
        ("payload", object(vec![("n", Value::from(n))])),
        (
            "signatures",
            array(vec![object(vec![
                ("key_id", Value::from("sha256:aa")),
                ("sig", Value::from("base64:bb")),
            ])]),
        ),
    ]))
}

fn status<T>(outcome: &MirrorResult<T>, success: u16) -> u16 {
    match outcome {
        Ok(_) => success,
        Err(error) => status_of(error),
    }
}

fn stage(hx: &mut TestHarness, bytes: &[u8]) -> u16 {
    let carried = encode_base64_field(bytes);
    let decoded = match decode_base64_field(&carried, "envelope_base64 must be `base64:...`") {
        Ok(decoded) => decoded,
        Err(error) => return status_of(&error),
    };
    match stage_entry(&mut hx.store, &entry_id_of(bytes), &decoded, &adaptor_metadata_object()) {
        Ok(outcome) => stored_status(outcome),
        Err(error) => status_of(&error),
    }
}

fn inclusion_path_for(leaves: &[[u8; 32]], index: u64) -> Vec<String> {
    let tree_size = u64::try_from(leaves.len()).expect("small test size");
    let proof = atl_core::core::merkle::generate_inclusion_proof(index, tree_size, |level, at| {
        if level == 0 {
            leaves.get(usize::try_from(at).ok()?).copied()
        } else {
            None
        }
    })
    .expect("index within tree");
    ahl_core::proof_path_hex(&proof)
}

fn signed(key: &ahl_core::TestKey, log_id: &str, tree_size: u64, root: [u8; 32], time: &str) -> Checkpoint {
    let mut cp = Checkpoint {
        log_id: log_id.to_owned(),
        tree_size,
        root_hash: format!("sha256:{}", hex::encode(root)),
        checkpoint_time: time.to_owned(),
        key_id: key.key_id(),
        signature: String::new(),
    };
    let blob = checkpoint_blob(&cp).expect("well-formed");
    cp.signature = key.sign(&blob);
    cp
}

fn signed_checkpoint_for(
    hx: &TestHarness,
    new_entries: &[Vec<u8>],
    time: &str,
    with_proofs: bool,
) -> (Checkpoint, Vec<PendingPromotion>) {
    let mut leaves = vec![hx.genesis_leaf];
    leaves.extend(new_entries.iter().map(|b| log_leaf_hash(b)));
    let tree_size = u64::try_from(leaves.len()).expect("small test size");
    let root = atl_core::core::merkle::compute_root(&leaves);
    let cp = signed(&hx.log_key, &hx.log_id, tree_size, root, time);
    let pending = if with_proofs {
        (1_u64..)
            .zip(new_entries)
            .map(|(index, bytes)| PendingPromotion {
                entry_id: entry_id_of(bytes),
                leaf_index: index,
                inclusion_path: inclusion_path_for(&leaves, index),
            })
            .collect()
    } else {
        Vec::new()
    };
    (cp, pending)
}

fn submit_checkpoint(hx: &mut TestHarness, cp: &Checkpoint, pending: &Vec<PendingPromotion>) -> u16 {
    let admission = ingest_checkpoint(&mut hx.store, &hx.config, cp, None, pending, None);
    status(&admission, 201)
}

fn retrieve(hx: &TestHarness, bytes: &[u8]) -> Option<Vec<u8>> {
    match retrieve_by_id(&hx.store, &entry_id_of(bytes)).expect("no fault") {
        Retrieved::Present { envelope, .. } => Some(envelope),
        Retrieved::Absent => None,
    }
}

fn range(hx: &TestHarness, tree_size: u64, from: u64, to: u64) -> MirrorResult<RangeResponse> {
    let checkpoint = series_usable_checkpoint(&hx.store, &hx.config, tree_size)?;
    build_range_response(&hx.store, &checkpoint, from, to)
}

fn has_bound(hx: &TestHarness, index: u64) -> bool {
    let view = series_view(&hx.store, &hx.config).expect("view");
    itub(&view, index).is_some()
}

#[test]
fn staging_alone_never_makes_an_entry_retrievable() {
    let mut hx = harness();
    let bytes = envelope_bytes(1);
    assert_eq!(stage(&mut hx, &bytes), 201);
    assert_eq!(retrieve(&hx, &bytes), None);
}

#[test]
fn stage_promote_and_retrieve_round_trips_byte_exact() {
    let mut hx = harness();
    let bytes = envelope_bytes(1);
    assert_eq!(stage(&mut hx, &bytes), 201);
    assert_eq!(stage(&mut hx, &bytes), 200);

    let (cp, pending) = signed_checkpoint_for(
        &hx,
        std::slice::from_ref(&bytes),
        "2026-01-01T00:00:00.000000000Z",
        true,
    );
    assert_eq!(submit_checkpoint(&mut hx, &cp, &pending), 201);
    assert_eq!(retrieve(&hx, &bytes), Some(bytes));
}

#[test]
fn a_checkpoint_cannot_promote_bytes_it_was_never_actually_anchored_over() {
    let mut hx = harness();
    let attacker_bytes = envelope_bytes(0xAA);
    assert_eq!(stage(&mut hx, &attacker_bytes), 201);

    let genuine_bytes = envelope_bytes(1);
    let (cp, genuine_pending) = signed_checkpoint_for(
        &hx,
        std::slice::from_ref(&genuine_bytes),
        "2026-01-01T00:00:00.000000000Z",
        true,
    );
    let forged_pending = vec![PendingPromotion {
        entry_id: entry_id_of(&attacker_bytes),
        ..genuine_pending[0].clone()
    }];
    assert_eq!(submit_checkpoint(&mut hx, &cp, &forged_pending), 400);
    assert_eq!(retrieve(&hx, &attacker_bytes), None);
    assert_eq!(hx.store.next_index().expect("next index"), 1);
}

#[test]
fn standalone_promotion_works_against_an_already_admitted_checkpoint() {
    let mut hx = harness();
    let bytes = envelope_bytes(1);
    assert_eq!(stage(&mut hx, &bytes), 201);

    let (cp, pending) = signed_checkpoint_for(
        &hx,
        std::slice::from_ref(&bytes),
        "2026-01-01T00:00:00.000000000Z",
        false,
    );
    assert_eq!(submit_checkpoint(&mut hx, &cp, &pending), 201);

    let leaves = [hx.genesis_leaf, log_leaf_hash(&bytes)];
    let path = inclusion_path_for(&leaves, 1);
    let promoted = promote_under(&mut hx.store, 2, &entry_id_of(&bytes), 1, &path).expect("proven");
    assert_eq!(promoted, InsertOutcome::Inserted);
    assert_eq!(retrieve(&hx, &bytes), Some(bytes.clone()));
    let again = promote_under(&mut hx.store, 2, &entry_id_of(&bytes), 1, &path).expect("repeat");
    assert_eq!(again, InsertOutcome::AlreadyPresent);
}

#[test]
fn promoting_against_an_unknown_checkpoint_is_a_404() {
    let mut hx = harness();
    let bytes = envelope_bytes(1);
    assert_eq!(stage(&mut hx, &bytes), 201);
    let promoted = promote_under(&mut hx.store, 99, &entry_id_of(&bytes), 0, &Vec::new());
    assert!(matches!(promoted, Err(MirrorError::UnknownCheckpoint { tree_size: 99 })));
    assert_eq!(status(&promoted, 201), 404);
}

#[test]
fn retrieving_an_absent_entry_is_a_404_not_an_error() {
    let hx = harness();
    let found = retrieve_by_id(&hx.store, "sha256:missing").expect("no error");
    assert_eq!(found, Retrieved::Absent);
}

#[test]
fn a_malformed_stage_request_is_a_400() {
    let reason = "envelope_base64 must be `base64:...`";
    let decoded = decode_base64_field("not-base64-prefixed", reason);
    assert!(matches!(decoded, Err(MirrorError::MalformedEnvelope { reason: got }) if got == reason));
    assert_eq!(status(&decoded, 201), 400);
    let decoded = decode_base64_field("base64:***", reason);
    assert_eq!(status(&decoded, 201), 400);
}

#[test]
fn range_and_checkpoint_round_trip_over_http() {
    let mut hx = harness();
    let entries: Vec<Vec<u8>> = (0u8..6).map(envelope_bytes).collect();
    for bytes in &entries {
        assert_eq!(stage(&mut hx, bytes), 201);
    }
    let (cp, pending) =
        signed_checkpoint_for(&hx, &entries, "2026-01-01T00:00:00.000000000Z", true);
    assert_eq!(submit_checkpoint(&mut hx, &cp, &pending), 201);

    let response = range(&hx, 7, 2, 5).expect("a window of the whole log");
    assert_eq!(response.entries.len(), 3);
    assert!(verify_range_response(&response).expect("well-formed"));

    assert!(has_bound(&hx, 2));
    assert!(!has_bound(&hx, 99));

    let reported = reported_checkpoint(&hx.store, &hx.config, 7).expect("known");
    assert_eq!(reported.state, CheckpointState::SeriesUsable);
    assert_eq!(status(&reported_checkpoint(&hx.store, &hx.config, 99), 200), 404);
    assert_eq!(series_view(&hx.store, &hx.config).expect("view").members.len(), 1);

    let path = consistency_between(&hx.store, &hx.config, 7, 7).expect("trivial");
    assert!(path.is_empty());

    let carried = encode_base64_field(&retrieve(&hx, &entries[0]).expect("present"));
    assert!(carried.starts_with("base64:"));
    assert_eq!(decode_base64_field(&carried, "envelope").expect("round trip"), entries[0]);
}

#[test]
fn an_unknown_checkpoint_range_request_is_a_404() {
    let hx = harness();
    assert_eq!(status(&range(&hx, 99, 0, 1), 200), 404);
}

#[test]
fn a_range_request_against_an_authenticated_but_not_series_usable_checkpoint_is_a_409() {
    let mut hx = harness();
    let unrelated: Vec<Vec<u8>> = (90u8..91).map(envelope_bytes).collect();
    let (cp, _pending) =
        signed_checkpoint_for(&hx, &unrelated, "2026-01-01T00:00:00.000000000Z", false);
    assert_eq!(submit_checkpoint(&mut hx, &cp, &Vec::new()), 201);
    let refused = range(&hx, 2, 0, 1);
    assert!(matches!(refused, Err(MirrorError::CheckpointNotSeriesUsable { tree_size: 2 })));
    assert_eq!(status(&refused, 200), 409);
}

#[test]
fn a_checkpoint_ingest_with_a_bad_signature_is_a_400() {
    let mut hx = harness();
    let root = hx.genesis_leaf;
    let mut cp = signed(&hx.log_key, &hx.log_id, 1, root, "2026-01-01T00:00:00.000000000Z");
    cp.signature = "base64:AAAA".to_owned();
    assert_eq!(submit_checkpoint(&mut hx, &cp, &Vec::new()), 400);
}

#[test]
fn an_oversized_tree_size_claim_is_rejected_not_allocated_for() {
    let mut hx = harness();
    for tree_size in [u64::try_from(i64::MAX).expect("positive"), 1u64 << 40, u64::MAX] {
        let cp = Checkpoint {
            log_id: hx.log_id.clone(),
            tree_size,
            root_hash: format!("sha256:{}", hex::encode(hx.genesis_leaf)),
            checkpoint_time: "2026-01-01T00:00:00.000000000Z".to_owned(),
            key_id: hx.log_key.key_id(),
            signature: "base64:AAAA".to_owned(),
        };
        let status = submit_checkpoint(&mut hx, &cp, &Vec::new());
        assert!((400..500).contains(&status), "tree_size {tree_size} gave {status}");
    }
}

#[test]
fn a_checkpoint_signed_outside_its_key_validity_range_is_a_400() {
    let producer = ahl_core::TestKey::from_seed_hex("producer", &"91".repeat(32)).expect("seed");
    let log_key = ahl_core::TestKey::from_seed_hex("log-1", &"92".repeat(32)).expect("seed");
    let log_id = format!("sha256:{}", "93".repeat(32));
    let genesis = genesis_manifest_bytes(&log_id, &producer, &log_key, "2026-01-01T00:00:00Z");
    let mut envelope: Value = serde_json::from_slice(&genesis).expect("json");
    let mut payload = envelope["payload"].take();
    payload["log"]["keys"][0]["valid_from_index"] = Value::from(5);
    let genesis_bytes = ahl_core::jcs(&ahl_core::envelope(payload, &producer));
    let mut hx = harness_with(&genesis_bytes, &producer, log_key, log_id);

    let root = hx.genesis_leaf;
    let cp = signed(&hx.log_key, &hx.log_id, 1, root, "2026-01-01T00:00:00.000000000Z");
    assert_eq!(submit_checkpoint(&mut hx, &cp, &Vec::new()), 400);
}

#[test]
fn itub_against_an_incomplete_series_is_unavailable() {
    let mut hx = harness();
    let first: Vec<Vec<u8>> = (0u8..4).map(envelope_bytes).collect();
    for bytes in &first {
        assert_eq!(stage(&mut hx, bytes), 201);
    }
    let (cp1, pending1) =
        signed_checkpoint_for(&hx, &first, "2026-01-01T00:00:00.000000000Z", true);
    assert_eq!(submit_checkpoint(&mut hx, &cp1, &pending1), 201);

    let more: Vec<Vec<u8>> = (4u8..9).map(envelope_bytes).collect();
    for bytes in &more {
        assert_eq!(stage(&mut hx, bytes), 201);
    }
    let all_new: Vec<Vec<u8>> = first.iter().chain(more.iter()).cloned().collect();
    let (cp2, pending2) =
        signed_checkpoint_for(&hx, &all_new, "2026-01-01T03:00:00.000000000Z", true);
    assert_eq!(submit_checkpoint(&mut hx, &cp2, &pending2), 201);

    assert!(!has_bound(&hx, 6));
    assert!(has_bound(&hx, 2));
}

#[test]
fn equivocation_refuses_at_and_beyond_the_floor_but_not_below_it() {
    let mut hx = harness();
    let (cp1, pending1) = signed_checkpoint_for(&hx, &[], "2026-01-01T00:00:00.000000000Z", true);
    assert_eq!(submit_checkpoint(&mut hx, &cp1, &pending1), 201);

    let branch_a =
        signed(&hx.log_key, &hx.log_id, 2, [0x01u8; 32], "2026-01-01T00:01:00.000000000Z");
    let branch_b =
        signed(&hx.log_key, &hx.log_id, 2, [0x02u8; 32], "2026-01-01T00:02:00.000000000Z");
    assert_eq!(submit_checkpoint(&mut hx, &branch_a, &Vec::new()), 201);
    assert_eq!(submit_checkpoint(&mut hx, &branch_b, &Vec::new()), 201);

    assert_eq!(status(&reported_checkpoint(&hx.store, &hx.config, 1), 200), 200);
    assert_eq!(status(&reported_checkpoint(&hx.store, &hx.config, 2), 200), 409);
    assert!(has_bound(&hx, 0));
    assert!(!has_bound(&hx, 1));
    assert_eq!(status(&range(&hx, 2, 0, 1), 200), 409);
    let refused = consistency_between(&hx.store, &hx.config, 1, 2);
    assert!(matches!(refused, Err(MirrorError::SeriesEquivocated { tree_size: 2, floor: 2 })));
    assert_eq!(status(&refused, 200), 409);
}

#[test]
fn a_consistency_request_for_an_unknown_checkpoint_is_a_404() {
    let hx = harness();
    assert_eq!(status(&consistency_between(&hx.store, &hx.config, 0, 5), 200), 404);
}

#[test]
fn a_consistency_request_in_reverse_order_is_a_400() {
    let mut hx = harness();
    let (cp1, pending1) = signed_checkpoint_for(&hx, &[], "2026-01-01T00:00:00.000000000Z", true);
    assert_eq!(submit_checkpoint(&mut hx, &cp1, &pending1), 201);
    let bytes = envelope_bytes(1);
    assert_eq!(stage(&mut hx, &bytes), 201);
    let (cp2, pending2) = signed_checkpoint_for(
        &hx,
        std::slice::from_ref(&bytes),
        "2026-01-01T00:01:00.000000000Z",
        true,
    );
    assert_eq!(submit_checkpoint(&mut hx, &cp2, &pending2), 201);

    assert_eq!(status(&consistency_between(&hx.store, &hx.config, 1, 2), 200), 200);
    let refused = consistency_between(&hx.store, &hx.config, 2, 1);
    assert!(matches!(refused, Err(MirrorError::ConsistencyOrder { from: 2, to: 1 })));
    assert_eq!(status(&refused, 200), 400);
}

#[test]
fn a_reversed_consistency_request_is_grounded_before_it_is_refused() {
    let mut hx = harness();
    let refused = consistency_between(&hx.store, &hx.config, 5, 2);
    assert!(matches!(refused, Err(MirrorError::UnknownCheckpoint { tree_size: 5 })));
    assert_eq!(status(&refused, 200), 404);

    let (cp1, pending1) = signed_checkpoint_for(&hx, &[], "2026-01-01T00:00:00.000000000Z", true);
    assert_eq!(submit_checkpoint(&mut hx, &cp1, &pending1), 201);
    for (root, minute) in [(0x01u8, 1), (0x02u8, 2)] {
        let time = format!("2026-01-01T00:{minute:02}:00.000000000Z");
        let branch = signed(&hx.log_key, &hx.log_id, 2, [root; 32], &time);
        assert_eq!(submit_checkpoint(&mut hx, &branch, &Vec::new()), 201);
    }
    let refused = consistency_between(&hx.store, &hx.config, 2, 1);
    assert!(matches!(refused, Err(MirrorError::SeriesEquivocated { tree_size: 2, floor: 2 })));
    assert_eq!(status(&refused, 200), 409);
}

#[test]
fn the_served_consistency_path_is_the_entry_bytes_path() {
    let mut hx = harness();
    let first: Vec<Vec<u8>> = (0u8..4).map(envelope_bytes).collect();
    for bytes in &first {
        assert_eq!(stage(&mut hx, bytes), 201);
    }
    let (cp1, pending1) =
        signed_checkpoint_for(&hx, &first, "2026-01-01T00:00:00.000000000Z", true);
    assert_eq!(submit_checkpoint(&mut hx, &cp1, &pending1), 201);

    let more: Vec<Vec<u8>> = (4u8..9).map(envelope_bytes).collect();
    for bytes in &more {
        assert_eq!(stage(&mut hx, bytes), 201);
    }
    let all_new: Vec<Vec<u8>> = first.iter().chain(more.iter()).cloned().collect();
    let (cp2, pending2) =
        signed_checkpoint_for(&hx, &all_new, "2026-01-01T00:03:00.000000000Z", true);
    assert_eq!(submit_checkpoint(&mut hx, &cp2, &pending2), 201);

    let path = consistency_between(&hx.store, &hx.config, 5, 10).expect("two usable members");

    let mut leaves = vec![hx.genesis_leaf];
    leaves.extend(all_new.iter().map(|b| log_leaf_hash(b)));
    let oracle = atl_core::core::merkle::generate_consistency_proof(5, 10, |level, at| {
        if level == 0 {
            leaves.get(usize::try_from(at).ok()?).copied()
        } else {
            None
        }
    })
    .expect("well-formed sizes");
    let expected: Vec<String> =
        oracle.path.iter().map(|h| format!("sha256:{}", hex::encode(h))).collect();
    assert!(!expected.is_empty(), "a 5 -> 10 proof is not the trivial empty path");
    assert_eq!(path, expected);
}

#[test]
fn outcomes_are_named_and_numbered() {
    assert_eq!(staged_word(InsertOutcome::Inserted), "staged");
    assert_eq!(staged_word(InsertOutcome::AlreadyPresent), "already_staged");
    assert_eq!(stored_status(InsertOutcome::Inserted), 201);
    assert_eq!(stored_status(InsertOutcome::AlreadyPresent), 200);
    assert_eq!(status_of(&MirrorError::NotStaged { entry_id: String::new() }), 404);
    assert_eq!(status_of(&MirrorError::UnknownRotationProof { manifest_entry_index: 3 }), 404);
    assert_eq!(status_of(&MirrorError::IncompleteEntries { have: 1, need: 2 }), 409);
    assert_eq!(status_of(&MirrorError::StoredEntryCorrupt { entry_id: String::new() }), 500);
    assert_eq!(status_of(&MirrorError::TreeMaterialMissing { level: 1, node_index: 0 }), 500);
    assert_eq!(status_of(&MirrorError::TreeMaterialCorrupt { level: 0, node_index: 0 }), 500);
    assert_eq!(status_of(&MirrorError::CheckpointRootMismatch { tree_size: 1 }), 500);
    assert_eq!(status_of(&MirrorError::IndexOverflow { what: "entry_index" }), 500);
    assert_eq!(status_of(&MirrorError::StoreInit(String::new())), 500);
    assert_eq!(status_of(&MirrorError::NotCanonical), 400);
    assert_eq!(status_of(&MirrorError::RawBlobMismatch), 400);
}

fn manifest_payload(
    log_id: &str,
    producer: &ahl_core::TestKey,
    log_key: &ahl_core::TestKey,
    predecessor: Option<&str>,
) -> Value {
    let mut payload = object(vec![
        ("ahl_version", Value::from(ahl_core::AHL_VERSION)),
        ("type", Value::from("manifest")),
        ("producer", Value::from("producer-1")),
        ("issued_at", Value::from("2026-01-01T00:00:00Z")),
        ("valid_time", Value::from("2026-01-01T00:00:00Z")),
        ("keys", array(vec![object(vec![
            ("key_id", Value::from(producer.key_id())),
            ("pubkey", Value::from(producer.pubkey())),
        ])])),
        ("log", object(vec![
            ("log_id", Value::from(log_id)),
            ("operator", Value::from("log-operator-1")),
            ("adaptor", object(vec![
                ("id", Value::from(ahl_core::ATL_PROFILE_ID)),
                ("hash", Value::from(ahl_core::sha256_hex(PROFILE_DOCUMENT))),
            ])),
            ("checkpoint_cadence", Value::from("PT1H")),
            ("cadence_epoch", Value::from("2026-01-01T00:00:00Z")),
            ("witness_grace_period", Value::from("PT15M")),
            ("keys", array(vec![object(vec![
                ("key_id", Value::from(log_key.key_id())),
                ("pubkey", Value::from(log_key.pubkey())),
                ("valid_from_index", Value::from(0)),
            ])])),
        ])),
        ("datasets", object(vec![
            ("records", object(vec![
                ("canonicalization", Value::from("jcs")),
                ("commitment_mode", Value::from("plain")),
                ("key_access", Value::from("not-applicable")),
                ("authority", object(vec![
                    ("producer", Value::from("producer-1")),
                    ("key_ids", array(vec![Value::from(producer.key_id())])),
                ])),
            ])),
        ])),
        ("pipelines", object(vec![
            ("include", array(vec![])),
            ("exclude", array(vec![])),
        ])),
        ("windows", object(vec![
            ("anchoring", Value::from("PT24H")),
            ("propagation", Value::from("P30D")),
        ])),
        ("retention", object(vec![("statements", Value::from("P10Y"))])),
        ("properties", object(vec![("reproducible_reconstruction", Value::from(false))])),
        ("level", Value::from("L2")),
    ]);
    if let Some(predecessor) = predecessor {
        payload["predecessor"] = Value::from(predecessor);
    }
    payload
}

struct Corpus {
    store: Store,
    config: Config,
    outgoing: ahl_core::TestKey,
    incoming: ahl_core::TestKey,
    producer: ahl_core::TestKey,
    log_id: String,
    genesis_entry_id: String,
    envelopes: Vec<Value>,
    leaves: Vec<[u8; 32]>,
    root: [u8; 32],
}

impl Corpus {
    fn checkpoint(&self, key: &ahl_core::TestKey, time: &str) -> Checkpoint {
        signed(key, &self.log_id, 3, self.root, time)
    }

    fn post(&mut self, cp: &Checkpoint) -> MirrorResult<Admission> {
        ingest_checkpoint(&mut self.store, &self.config, cp, None, &Vec::new(), None)
    }
}

fn corpus() -> Corpus {
    let producer =
        ahl_core::TestKey::from_seed_hex("producer", &"a1".repeat(32)).expect("seed");
    let outgoing =
        ahl_core::TestKey::from_seed_hex("log-out", &"a2".repeat(32)).expect("seed");
    let incoming =
        ahl_core::TestKey::from_seed_hex("log-in", &"a3".repeat(32)).expect("seed");
    let log_id = format!("sha256:{}", "a4".repeat(32));

    let genesis = ahl_core::envelope(
        manifest_payload(&log_id, &producer, &outgoing, None),
        &producer,
    );
    let genesis_entry_id = ahl_core::entry_id(&genesis);
    let rotating = ahl_core::envelope(
        manifest_payload(&log_id, &producer, &incoming, Some(&genesis_entry_id)),
        &producer,
    );
    let rotating_statement_id =
        ahl_core::statement_id(&rotating).expect("well-formed envelope");
    let subject = ahl_core::envelope(
        object(vec![
            ("ahl_version", Value::from(ahl_core::AHL_VERSION)),
            ("type", Value::from("ingestion")),
            ("producer", Value::from("producer-1")),
            ("issued_at", Value::from("2026-01-01T00:00:00Z")),
            ("valid_time", Value::from("2026-01-01T00:00:00Z")),
            ("manifest", Value::from(rotating_statement_id)),
            ("dataset", Value::from("records")),
            ("origin", Value::from("batch:2026-01-01/records-01")),
            ("record", Value::from(format!("sha256:{}", "b1".repeat(32)))),
        ]),
        &producer,
    );

    let envelopes = vec![genesis, rotating, subject];
    let entries: Vec<Vec<u8>> = envelopes.iter().map(ahl_core::jcs).collect();
    let leaves: Vec<[u8; 32]> = entries.iter().map(|b| log_leaf_hash(b)).collect();
    let root = atl_core::core::merkle::compute_root(&leaves);

    let mut store = Store::open_in_memory().expect("in-memory store");
    for (index, bytes) in entries.iter().enumerate() {
        let id = entry_id_of(bytes);
        store.stage_entry(&id, bytes).expect("stage");
        store
            .promote_entry(u64::try_from(index).expect("small test index"), &id)
            .expect("promote");
    }
    let config = Config::resolve(&ConfigSpec {
        log_id: log_id.clone(),
        genesis_manifest_entry_id: genesis_entry_id.clone(),
        genesis_producer_keys: vec![KeyObjectSpec {
            key_id: producer.key_id(),
            pubkey: producer.pubkey(),
            valid_from_index: 0,
        }],
        store_path: ":memory:".to_owned(),
    })
    .expect("valid config");

    Corpus {
        store,
            config,
        outgoing,
        incoming,
        producer,
        log_id,
        genesis_entry_id,
        envelopes,
        leaves,
        root,
    }
}

fn checkpoint_value(cp: &Checkpoint) -> Value {
    object(vec![
        ("log_id", Value::from(cp.log_id.clone())),
        ("tree_size", Value::from(cp.tree_size)),
        ("root_hash", Value::from(cp.root_hash.clone())),
        ("checkpoint_time", Value::from(cp.checkpoint_time.clone())),
        ("key_id", Value::from(cp.key_id.clone())),
        ("signature", Value::from(cp.signature.clone())),
    ])
}

fn path_for(corpus: &Corpus, index: u64) -> Vec<String> {
    inclusion_path_for(&corpus.leaves, index)
}

#[test]
fn the_rotation_route_serves_the_element_and_the_series_routes_do_not() {
    let mut corpus = corpus();
    let rotation_cp = corpus.checkpoint(&corpus.outgoing, "2026-01-01T01:00:00.000000000Z");
    let admission = corpus.post(&rotation_cp).expect("rotation material");
    assert_eq!(
        admission,
        Admission { series_member: false, rotation_anchors: vec![ROTATING_INDEX] }
    );

    let element =
        rotation_proof_element(&corpus.store, &corpus.config, ROTATING_INDEX).expect("anchored");
    assert_eq!(element.manifest_entry_index, ROTATING_INDEX);
    assert_eq!(element.checkpoint, rotation_cp);
    assert_eq!(element.inclusion_path, path_for(&corpus, ROTATING_INDEX));

    let view = series_view(&corpus.store, &corpus.config).expect("view");
    assert!(view.members.is_empty(), "rotation material is not a series member");
    assert_eq!(status(&reported_checkpoint(&corpus.store, &corpus.config, 3), 200), 404);
    assert!(itub(&view, 0).is_none());
    assert_eq!(status(&consistency_between(&corpus.store, &corpus.config, 1, 3), 200), 404);

    let refused = rotation_proof_element(&corpus.store, &corpus.config, 0);
    assert!(matches!(
        refused,
        Err(MirrorError::UnknownRotationProof { manifest_entry_index: 0 })
    ));
    assert_eq!(status(&refused, 200), 404);
}

#[test]
fn an_incoming_key_checkpoint_is_an_ordinary_series_member() {
    let mut corpus = corpus();
    let series_cp = corpus.checkpoint(&corpus.incoming, "2026-01-01T01:00:00.000000000Z");
    let admission = corpus.post(&series_cp).expect("series member");
    assert_eq!(admission, Admission { series_member: true, rotation_anchors: Vec::new() });

    let view = series_view(&corpus.store, &corpus.config).expect("view");
    assert_eq!(view.members.len(), 1);
    assert_eq!(view.members[0].state, CheckpointState::SeriesUsable);
    let refused = rotation_proof_element(&corpus.store, &corpus.config, ROTATING_INDEX);
    assert_eq!(status(&refused, 200), 404);
}

#[test]
fn a_rotation_checkpoint_diverging_from_a_series_member_is_reported() {
    let mut corpus = corpus();
    let series = signed(
        &corpus.incoming,
        &corpus.log_id,
        5,
        [0x11; 32],
        "2026-01-01T03:00:00.000000000Z",
    );
    let rotation = signed(
        &corpus.outgoing,
        &corpus.log_id,
        5,
        [0x22; 32],
        "2026-01-01T04:00:00.000000000Z",
    );
    assert!(corpus.post(&series).expect("admitted").series_member);
    assert_eq!(corpus.post(&rotation).expect("admitted").rotation_anchors, vec![ROTATING_INDEX]);

    let refused = rotation_proof_element(&corpus.store, &corpus.config, ROTATING_INDEX);
    assert!(matches!(refused, Err(MirrorError::SeriesEquivocated { tree_size: 5, floor: 5 })));
    assert_eq!(status(&refused, 200), 409);
    assert_eq!(status(&reported_checkpoint(&corpus.store, &corpus.config, 5), 200), 409);
}

#[test]
fn a_receipt_carrying_the_served_element_verifies() {
    let mut corpus = corpus();
    let rotation_cp = corpus.checkpoint(&corpus.outgoing, "2026-01-01T01:00:00.000000000Z");
    let anchoring_cp = corpus.checkpoint(&corpus.incoming, "2026-01-01T02:00:00.000000000Z");
    corpus.post(&rotation_cp).expect("admitted");
    corpus.post(&anchoring_cp).expect("admitted");

    let served =
        rotation_proof_element(&corpus.store, &corpus.config, ROTATING_INDEX).expect("anchored");
    let element = object(vec![
        ("manifest_entry_index", Value::from(served.manifest_entry_index)),
        ("checkpoint", checkpoint_value(&served.checkpoint)),
        ("inclusion_path", Value::from(served.inclusion_path)),
        ("witnesses", array(Vec::new())),
    ]);

    let key_object = |key: &ahl_core::TestKey, entry_index: u64| {
        object(vec![
            ("key_id", Value::from(key.key_id())),
            ("pubkey", Value::from(key.pubkey())),
            ("source", Value::from("manifest-chain")),
            ("binding", object(vec![("entry_index", Value::from(entry_index))])),
        ])
    };
    let receipt = object(vec![
        ("ahl_receipt_version", Value::from("2")),
        ("spec_version", Value::from("0.4.0")),
        ("claim", object(vec![
            ("type", Value::from("statement-anchored")),
            ("assurance", object(vec![
                ("governance", Value::from("declared")),
                ("competing_triggers", Value::from("not-checked")),
                ("witnessed", Value::from(false)),
                ("continued_history", Value::from(false)),
                ("content_binding", Value::from("none")),
            ])),
        ])),
        ("subject", object(vec![
            ("statement_id", Value::from(ahl_core::statement_id(&corpus.envelopes[2]).expect("id"))),
            ("entry_id", Value::from(ahl_core::entry_id(&corpus.envelopes[2]))),
            ("entry_index", Value::from(2)),
            ("manifest", Value::from(ahl_core::statement_id(&corpus.envelopes[1]).expect("id"))),
        ])),
        ("envelope", corpus.envelopes[2].clone()),
        ("keys", object(vec![
            ("log", array(vec![
                key_object(&corpus.incoming, ROTATING_INDEX),
                key_object(&corpus.outgoing, 0),
            ])),
            ("witness", array(vec![])),
            ("producer", array(vec![key_object(&corpus.producer, ROTATING_INDEX)])),
        ])),
        ("anchoring", object(vec![
            ("adaptor", object(vec![
                ("id", Value::from(ahl_core::ATL_PROFILE_ID)),
                ("hash", Value::from(ahl_core::sha256_hex(PROFILE_DOCUMENT))),
            ])),
            ("checkpoint", checkpoint_value(&anchoring_cp)),
            ("inclusion_path", Value::from(path_for(&corpus, 2))),
            ("witnesses", array(vec![])),
        ])),
        ("governance", object(vec![
            ("genesis_entry_id", Value::from(corpus.genesis_entry_id.clone())),
            ("chain", array(vec![
                object(vec![
                    ("envelope", corpus.envelopes[0].clone()),
                    ("entry_index", Value::from(0)),
                    ("inclusion_path", Value::from(path_for(&corpus, 0))),
                ]),
                object(vec![
                    ("envelope", corpus.envelopes[1].clone()),
                    ("entry_index", Value::from(ROTATING_INDEX)),
                    ("inclusion_path", Value::from(path_for(&corpus, ROTATING_INDEX))),
                ]),
            ])),
            ("rotation_proofs", array(vec![element])),
            ("currency", object(vec![("mode", Value::from("declared"))])),
        ])),
    ]);

    let policy = TrustPolicy {
        genesis_entry_id: corpus.genesis_entry_id.clone(),
        genesis_key_ids: None,
        adaptor_profiles: BTreeMap::from([(
            ahl_core::ATL_PROFILE_ID.to_owned(),
            AdaptorProfile {
                document: PROFILE_DOCUMENT.to_vec(),
                capabilities: AdaptorCapabilities {
                    checkpoint_raw: false,
                    consistency_proofs: false,
                },
            },
        )]),
        dataset_keys: BTreeMap::new(),
        trusted_witness_keys: BTreeMap::new(),
        limits: Limits::default(),
    };

    let report = verify_receipt_report(&receipt, &policy).expect("the run completes");
    assert_eq!(report.result, Outcome::Verified, "findings: {:?}", report.findings);
}
