use ahl_mirror::checkpoint::Checkpoint;
use ahl_mirror::error::MirrorError;
use ahl_mirror::ingest::{promote_entry, stage_entry};
use ahl_mirror::metadata::log_leaf_hash;
use ahl_mirror::store::{InsertOutcome, Store};
use serde_json::Value;
use sha2::{Digest as _, Sha256};

fn object(members: Vec<(&str, Value)>) -> Value {
    Value::Object(members.into_iter().map(|(name, value)| (name.to_owned(), value)).collect())
}

fn array(items: Vec<Value>) -> Value {
    Value::Array(items)
}

fn adaptor_metadata_object() -> Value {
    object(vec![("ahl_adaptor", Value::from("ahl-adaptor-atl-v1"))])
}

fn envelope_bytes(n: u8) -> Vec<u8> {
    let env = object(vec![
        ("payload", object(vec![("n", Value::from(n))])),
        ("signatures", array(vec![object(vec![
            ("key_id", Value::from("sha256:aa")),
            ("sig", Value::from("base64:bb")),
        ])])),
    ]);
    ahl_core::jcs(&env)
}

fn entry_id_of(bytes: &[u8]) -> String {
    format!("sha256:{}", hex::encode(Sha256::digest(bytes)))
}

#[test]
fn a_well_formed_entry_is_staged_but_not_canonical() {
    let mut store = Store::open_in_memory().expect("in-memory store");
    let bytes = envelope_bytes(1);
    let id = entry_id_of(&bytes);
    let outcome =
        stage_entry(&mut store, &id, &bytes, &adaptor_metadata_object()).expect("valid entry");
    assert_eq!(outcome, InsertOutcome::Inserted);
    assert!(store.get_staged(&id).expect("query").is_some());
    assert!(store.get_entry_by_id(&id).expect("query").is_none());
}

#[test]
fn a_wrong_claimed_id_is_rejected() {
    let mut store = Store::open_in_memory().expect("in-memory store");
    let bytes = envelope_bytes(1);
    let wrong_id = format!("sha256:{}", "00".repeat(32));
    assert!(matches!(
        stage_entry(&mut store, &wrong_id, &bytes, &adaptor_metadata_object()),
        Err(MirrorError::EntryIdMismatch { .. })
    ));
}

#[test]
fn non_json_bytes_are_rejected() {
    let mut store = Store::open_in_memory().expect("in-memory store");
    let bytes = b"not json".to_vec();
    let id = entry_id_of(&bytes);
    assert!(matches!(
        stage_entry(&mut store, &id, &bytes, &adaptor_metadata_object()),
        Err(MirrorError::Json(_))
    ));
}

#[test]
fn a_missing_payload_field_is_rejected() {
    let mut store = Store::open_in_memory().expect("in-memory store");
    let bytes = ahl_core::jcs(&object(vec![
        ("signatures", array(vec![object(vec![
            ("key_id", Value::from("a")),
            ("sig", Value::from("b")),
        ])])),
    ]));
    let id = entry_id_of(&bytes);
    assert!(matches!(
        stage_entry(&mut store, &id, &bytes, &adaptor_metadata_object()),
        Err(MirrorError::MalformedEnvelope { .. })
    ));
}

#[test]
fn an_unsigned_envelope_is_rejected() {
    let mut store = Store::open_in_memory().expect("in-memory store");
    let bytes = ahl_core::jcs(&object(vec![
        ("payload", object(vec![])),
        ("signatures", array(vec![])),
    ]));
    let id = entry_id_of(&bytes);
    assert!(matches!(
        stage_entry(&mut store, &id, &bytes, &adaptor_metadata_object()),
        Err(MirrorError::MalformedEnvelope { .. })
    ));
}

#[test]
fn a_non_canonical_envelope_is_rejected() {
    let mut store = Store::open_in_memory().expect("in-memory store");

    let bytes = br#"{"payload": {"type":"key"}, "signatures":[{"key_id":"sha256:aa","sig":"base64:bb"}]}"#.to_vec();
    let id = entry_id_of(&bytes);
    assert!(matches!(
        stage_entry(&mut store, &id, &bytes, &adaptor_metadata_object()),
        Err(MirrorError::NotCanonical)
    ));
}

#[test]
fn wrong_adaptor_metadata_is_rejected() {
    let mut store = Store::open_in_memory().expect("in-memory store");
    let bytes = envelope_bytes(1);
    let id = entry_id_of(&bytes);
    assert!(matches!(
        stage_entry(&mut store, &id, &bytes, &object(vec![
            ("ahl_adaptor", Value::from("ahl-adaptor-atl-v2")),
        ])),
        Err(MirrorError::WrongAdaptorMetadata { .. })
    ));
}

#[test]
fn repeated_identical_staging_is_idempotent() {
    let mut store = Store::open_in_memory().expect("in-memory store");
    let bytes = envelope_bytes(1);
    let id = entry_id_of(&bytes);
    stage_entry(&mut store, &id, &bytes, &adaptor_metadata_object()).expect("first");
    let outcome = stage_entry(&mut store, &id, &bytes, &adaptor_metadata_object())
        .expect("repeat of the same entry");
    assert_eq!(outcome, InsertOutcome::AlreadyPresent);
}

fn checkpoint_and_proof(entries: &[Vec<u8>], index: usize) -> (Checkpoint, u64, Vec<String>) {
    let leaves: Vec<[u8; 32]> = entries.iter().map(|b| log_leaf_hash(b)).collect();
    let root = atl_core::core::merkle::compute_root(&leaves);
    let checkpoint = Checkpoint {
        log_id: "sha256:aa".to_owned(),
        tree_size: u64::try_from(entries.len()).expect("small test size"),
        root_hash: format!("sha256:{}", hex::encode(root)),
        checkpoint_time: "2026-01-01T00:00:00.000000000Z".to_owned(),
        key_id: "sha256:bb".to_owned(),
        signature: "base64:AAAA".to_owned(),
    };
    let index_u64 = u64::try_from(index).expect("small test index");
    let tree_size = u64::try_from(leaves.len()).expect("small test size");
    let proof = atl_core::core::merkle::generate_inclusion_proof(index_u64, tree_size, |level, i| {
        if level == 0 {
            leaves.get(usize::try_from(i).ok()?).copied()
        } else {
            None
        }
    })
    .expect("index within tree");
    let path = ahl_core::proof_path_hex(&proof);
    (checkpoint, index_u64, path)
}

#[test]
fn a_staged_entry_with_a_valid_proof_is_promoted() {
    let mut store = Store::open_in_memory().expect("in-memory store");
    let entries: Vec<Vec<u8>> = (0u8..4).map(envelope_bytes).collect();
    for bytes in &entries {
        store.stage_entry(&entry_id_of(bytes), bytes).expect("stage");
    }
    let (checkpoint, index, path) = checkpoint_and_proof(&entries, 0);
    let outcome = promote_entry(&mut store, &checkpoint, &entry_id_of(&entries[0]), index, &path)
        .expect("valid inclusion proof");
    assert_eq!(outcome, InsertOutcome::Inserted);
    assert!(store.get_entry_by_id(&entry_id_of(&entries[0])).expect("query").is_some());
}

#[test]
fn promotion_without_staging_is_rejected() {
    let mut store = Store::open_in_memory().expect("in-memory store");
    let entries: Vec<Vec<u8>> = (0u8..4).map(envelope_bytes).collect();
    let (checkpoint, index, path) = checkpoint_and_proof(&entries, 0);

    assert!(matches!(
        promote_entry(&mut store, &checkpoint, &entry_id_of(&entries[0]), index, &path),
        Err(MirrorError::NotStaged { .. })
    ));
}

#[test]
fn a_forged_checkpoint_cannot_promote_unrelated_staged_bytes() {
    let mut store = Store::open_in_memory().expect("in-memory store");
    let genuine: Vec<Vec<u8>> = (0u8..4).map(envelope_bytes).collect();
    let attacker_bytes = ahl_core::jcs(&object(vec![
        ("payload", object(vec![("attacker", Value::from(true))])),
        ("signatures", array(vec![object(vec![
            ("key_id", Value::from("sha256:aa")),
            ("sig", Value::from("base64:bb")),
        ])])),
    ]));
    store.stage_entry(&entry_id_of(&attacker_bytes), &attacker_bytes).expect("stage");

    let (checkpoint, index, path) = checkpoint_and_proof(&genuine, 0);
    assert!(matches!(
        promote_entry(&mut store, &checkpoint, &entry_id_of(&attacker_bytes), index, &path),
        Err(MirrorError::InclusionProofInvalid { .. })
    ));
    assert!(store.get_entry_by_id(&entry_id_of(&attacker_bytes)).expect("query").is_none());
}

#[test]
fn a_proof_for_the_wrong_index_is_rejected() {
    let mut store = Store::open_in_memory().expect("in-memory store");
    let entries: Vec<Vec<u8>> = (0u8..4).map(envelope_bytes).collect();
    for bytes in &entries {
        store.stage_entry(&entry_id_of(bytes), bytes).expect("stage");
    }

    let (checkpoint, index, path) = checkpoint_and_proof(&entries, 1);
    assert!(matches!(
        promote_entry(&mut store, &checkpoint, &entry_id_of(&entries[0]), index, &path),
        Err(MirrorError::InclusionProofInvalid { .. })
    ));
}
