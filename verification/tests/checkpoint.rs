use ahl_mirror::checkpoint::{
    checkpoint_blob, ingest_checkpoint, parse_checkpoint_time, render_checkpoint_time,
    rotation_anchors_for, verify_checkpoint_signature, verify_series_consistency, Admission,
    Checkpoint, PendingPromotion, CHECKPOINT_BLOB_LEN,
};
use ahl_mirror::config::{Config, ConfigSpec, KeyObjectSpec};
use ahl_mirror::error::{MirrorError, MirrorResult};
use ahl_mirror::frontier::{
    holds_prefix, itub, root_matches_stored, series_consistency_stored, series_usable_stored,
    series_view, CheckpointState, FrontierStop,
};
use ahl_mirror::manifest;
use ahl_mirror::metadata::log_leaf_hash;
use ahl_mirror::store::Store;
use serde_json::Value;
use sha2::Digest as _;

fn compute_root(leaves: &[[u8; 32]]) -> [u8; 32] {
    atl_core::core::merkle::compute_root(leaves)
}

fn object(members: Vec<(&str, Value)>) -> Value {
    Value::Object(members.into_iter().map(|(name, value)| (name.to_owned(), value)).collect())
}

fn array(items: Vec<Value>) -> Value {
    Value::Array(items)
}

fn signed_checkpoint(
    key: &ahl_core::TestKey,
    log_id: &str,
    tree_size: u64,
    root_hash: &str,
    checkpoint_time: &str,
) -> Checkpoint {
    let mut cp = Checkpoint {
        log_id: log_id.to_owned(),
        tree_size,
        root_hash: root_hash.to_owned(),
        checkpoint_time: checkpoint_time.to_owned(),
        key_id: key.key_id(),
        signature: String::new(),
    };
    let blob = checkpoint_blob(&cp).expect("well-formed fields");
    cp.signature = key.sign(&blob);
    cp
}

#[test]
fn checkpoint_time_matches_the_profile_worked_example() {
    let nanos = 1_767_225_600_123_456_789u64;
    let rendered = render_checkpoint_time(nanos).expect("in-range value");
    assert_eq!(rendered, "2026-01-01T00:00:00.123456789Z");
    assert_eq!(parse_checkpoint_time(&rendered).expect("well-formed"), nanos);
}

#[test]
fn checkpoint_time_round_trips_at_the_epoch_and_with_trailing_zeros() {
    assert_eq!(render_checkpoint_time(0).expect("epoch"), "1970-01-01T00:00:00.000000000Z");
    assert_eq!(parse_checkpoint_time("1970-01-01T00:00:00.000000000Z").expect("epoch"), 0);
}

#[test]
fn truncated_or_malformed_checkpoint_times_are_rejected() {
    assert!(parse_checkpoint_time("2026-01-01T00:00:00.123Z").is_err());
    assert!(parse_checkpoint_time("2026-01-01T00:00:00Z").is_err());
    assert!(parse_checkpoint_time("not-a-time").is_err());
}

#[test]
fn a_non_digit_in_the_subsecond_field_is_rejected_not_a_panic() {
    assert!(parse_checkpoint_time("2026-01-01T00:01:00.0000&0000Z").is_err());
    assert!(parse_checkpoint_time("2026-01-01T00:01:00.000&0000Z").is_err());
    assert!(parse_checkpoint_time("2026-01-01T00:01:00.00+0000000Z").is_err());
    assert!(parse_checkpoint_time("2026-01-01T00:01:00.        Z").is_err());

    assert!(parse_checkpoint_time("2026-01-01T00:01:00.000000000Z").is_ok());
}

#[test]
fn blob_assembly_matches_the_documented_layout() {
    let key = ahl_core::TestKey::from_seed_hex("log-1", &"01".repeat(32)).expect("seed");
    let cp = signed_checkpoint(
        &key,
        &format!("sha256:{}", "22".repeat(32)),
        10,
        &format!("sha256:{}", "33".repeat(32)),
        "2026-01-01T00:00:00.000000000Z",
    );
    let blob = checkpoint_blob(&cp).expect("well-formed");
    assert_eq!(&blob[0..18], b"ATL-Protocol-v1-CP");
    assert_eq!(&blob[18..50], [0x22u8; 32]);
    assert_eq!(&blob[50..58], 10u64.to_le_bytes());
    assert_eq!(&blob[66..98], [0x33u8; 32]);
}

#[test]
fn a_correctly_signed_checkpoint_verifies() {
    let key = ahl_core::TestKey::from_seed_hex("log-1", &"04".repeat(32)).expect("seed");
    let log_id = format!("sha256:{}", "55".repeat(32));
    let cp = signed_checkpoint(
        &key,
        &log_id,
        10,
        &format!("sha256:{}", "66".repeat(32)),
        "2026-01-01T00:00:00.000000000Z",
    );
    verify_checkpoint_signature(&cp, None, &log_id, &key.verifying_key().to_bytes())
        .expect("valid signature and log_id");
}

#[test]
fn a_wrong_log_id_is_rejected() {
    let key = ahl_core::TestKey::from_seed_hex("log-1", &"05".repeat(32)).expect("seed");
    let cp = signed_checkpoint(
        &key,
        &format!("sha256:{}", "aa".repeat(32)),
        10,
        &format!("sha256:{}", "bb".repeat(32)),
        "2026-01-01T00:00:00.000000000Z",
    );
    let other_log_id = format!("sha256:{}", "cc".repeat(32));
    assert!(matches!(
        verify_checkpoint_signature(&cp, None, &other_log_id, &key.verifying_key().to_bytes()),
        Err(MirrorError::WrongLogId { .. })
    ));
}

#[test]
fn a_tampered_signature_is_rejected() {
    let key = ahl_core::TestKey::from_seed_hex("log-1", &"08".repeat(32)).expect("seed");
    let log_id = format!("sha256:{}", "ff".repeat(32));
    let mut cp = signed_checkpoint(
        &key,
        &log_id,
        10,
        &format!("sha256:{}", "11".repeat(32)),
        "2026-01-01T00:00:00.000000000Z",
    );
    cp.tree_size = 11;
    assert!(matches!(
        verify_checkpoint_signature(&cp, None, &log_id, &key.verifying_key().to_bytes()),
        Err(MirrorError::SignatureInvalid { .. })
    ));
}

#[test]
fn a_mismatched_raw_blob_is_rejected() {
    let key = ahl_core::TestKey::from_seed_hex("log-1", &"09".repeat(32)).expect("seed");
    let log_id = format!("sha256:{}", "12".repeat(32));
    let cp = signed_checkpoint(
        &key,
        &log_id,
        10,
        &format!("sha256:{}", "13".repeat(32)),
        "2026-01-01T00:00:00.000000000Z",
    );
    let bad_raw = [0u8; CHECKPOINT_BLOB_LEN];
    assert!(matches!(
        verify_checkpoint_signature(&cp, Some(&bad_raw), &log_id, &key.verifying_key().to_bytes()),
        Err(MirrorError::RawBlobMismatch)
    ));
}

#[test]
fn consistency_holds_for_a_true_prefix_and_fails_for_a_tampered_one() {
    let leaves: Vec<[u8; 32]> = (0u8..8).map(|i| ahl_core::leaf_hash(&[i])).collect();
    let root_of = |n: usize| atl_core::core::merkle::compute_root(&leaves[..n]);

    let from_cp = Checkpoint {
        log_id: "sha256:aa".to_owned(),
        tree_size: 4,
        root_hash: format!("sha256:{}", hex::encode(root_of(4))),
        checkpoint_time: "2026-01-01T00:00:00.000000000Z".to_owned(),
        key_id: "sha256:aa".to_owned(),
        signature: "base64:AAAA".to_owned(),
    };
    let to_cp = Checkpoint {
        tree_size: 8,
        root_hash: format!("sha256:{}", hex::encode(root_of(8))),
        checkpoint_time: "2026-01-02T00:00:00.000000000Z".to_owned(),
        ..from_cp.clone()
    };
    assert!(verify_series_consistency(&from_cp, &to_cp, &leaves).expect("well-formed"));

    let mut tampered = to_cp;
    tampered.root_hash = format!("sha256:{}", "00".repeat(32));
    assert!(!verify_series_consistency(&from_cp, &tampered, &leaves).expect("well-formed"));
}

fn store_over(count: u64) -> (Store, Vec<Vec<u8>>) {
    let mut store = Store::open_in_memory().expect("in-memory store");
    let mut entries = Vec::new();
    for index in 0..count {
        let bytes = ahl_core::jcs(&object(vec![
            ("payload", object(vec![("n", Value::from(index))])),
            ("signatures", array(vec![object(vec![
                ("key_id", Value::from("sha256:aa")),
                ("sig", Value::from("base64:bb")),
            ])])),
        ]));
        let id = format!("sha256:{}", hex::encode(sha2::Sha256::digest(&bytes)));
        store.stage_entry(&id, &bytes).expect("stage");
        store.promote_entry(index, &id).expect("promote");
        entries.push(bytes);
    }
    (store, entries)
}

#[test]
fn the_stored_series_checks_agree_with_the_leaf_sequence_forms() {
    for size in 1..=33_u64 {
        let (store, entries) = store_over(size);
        let leaves: Vec<[u8; 32]> =
            entries.iter().map(|b| log_leaf_hash(b)).collect();
        let cp_at = |n: u64| {
            let end = usize::try_from(n).expect("small test size");
            root_vehicle(n, compute_root(&leaves[..end]))
        };
        for n in 1..=size {
            let to_cp = cp_at(n);
            assert!(
                root_matches_stored(&store, &to_cp).expect("readable"),
                "tree_size {size}, root over [0, {n})"
            );
            for m in 1..=n {
                let from_cp = cp_at(m);
                let stored = series_consistency_stored(&store, &from_cp, &to_cp)
                    .expect("readable");
                assert_eq!(
                    stored,
                    verify_series_consistency(&from_cp, &to_cp, &leaves).expect("oracle"),
                    "tree_size {size}, consistency ({m}, {n})"
                );
                assert!(stored, "tree_size {size}: ({m}, {n}) is a genuine prefix pair");
            }
        }
    }
}

#[test]
fn a_stored_series_check_against_a_tampered_root_fails_as_the_oracle_does() {
    let (store, entries) = store_over(8);
    let leaves: Vec<[u8; 32]> = entries.iter().map(|b| log_leaf_hash(b)).collect();
    let from_cp = root_vehicle(4, compute_root(&leaves[..4]));
    let mut to_cp = root_vehicle(8, compute_root(&leaves));
    to_cp.root_hash = format!("sha256:{}", "00".repeat(32));

    assert!(!series_consistency_stored(&store, &from_cp, &to_cp)
        .expect("readable"));
    assert!(!verify_series_consistency(&from_cp, &to_cp, &leaves).expect("oracle"));
    assert!(!root_matches_stored(&store, &to_cp).expect("readable"));
}

#[test]
fn a_checkpoint_over_a_prefix_the_store_does_not_hold_is_not_series_usable() {
    let (store, entries) = store_over(4);
    let leaves: Vec<[u8; 32]> = entries.iter().map(|b| log_leaf_hash(b)).collect();
    let cp = root_vehicle(9, compute_root(&leaves));
    assert!(!holds_prefix(&store, cp.tree_size).expect("readable"));
    assert!(!series_usable_stored(&store, &cp, None).expect("readable"));
}

struct Fixture {
    store: Store,
    config: Config,
    producer: ahl_core::TestKey,
    genesis_id: String,
}

fn stored_entry(payload: Value, key: &ahl_core::TestKey) -> Vec<u8> {
    ahl_core::jcs(&ahl_core::envelope(payload, key))
}

fn entry_id_of(bytes: &[u8]) -> String {
    format!("sha256:{}", hex::encode(sha2::Sha256::digest(bytes)))
}

fn root_vehicle(tree_size: u64, root: [u8; 32]) -> Checkpoint {
    Checkpoint {
        log_id: "sha256:00".to_owned(),
        tree_size,
        root_hash: format!("sha256:{}", hex::encode(root)),
        checkpoint_time: "2026-01-01T00:00:00.000000000Z".to_owned(),
        key_id: "sha256:00".to_owned(),
        signature: "base64:AAAA".to_owned(),
    }
}

fn stage_and_promote_at(
    store: &mut Store,
    tree_size: u64,
    root: [u8; 32],
    entries: &[Vec<u8>],
    start_index: u64,
) {
    let vehicle = root_vehicle(tree_size, root);
    let leaves: Vec<[u8; 32]> = {
        let existing = store.get_entries_range(0, start_index).expect("existing prefix");
        existing
            .iter()
            .map(|b| log_leaf_hash(b))
            .chain(entries.iter().map(|b| log_leaf_hash(b)))
            .collect()
    };
    for (offset, bytes) in entries.iter().enumerate() {
        let id = entry_id_of(bytes);
        store.stage_entry(&id, bytes).expect("stage");
        let index = start_index + u64::try_from(offset).expect("small test size");
        let proof =
            atl_core::core::merkle::generate_inclusion_proof(index, tree_size, |level, at| {
                if level == 0 {
                    leaves.get(usize::try_from(at).ok()?).copied()
                } else {
                    None
                }
            })
            .expect("index within tree");
        let path = ahl_core::proof_path_hex(&proof);
        ahl_mirror::ingest::promote_entry(store, &vehicle, &id, index, &path).expect("promote");
    }
}

fn genesis_manifest_payload(
    log_id: &str,
    producer: &ahl_core::TestKey,
    log_key: &ahl_core::TestKey,
    cadence: &str,
    epoch: &str,
) -> Value {
    object(vec![
        ("type", Value::from("manifest")),
        ("ahl_version", Value::from(ahl_core::AHL_VERSION)),
        ("producer", Value::from("producer-1")),
        ("keys", array(vec![object(vec![
            ("key_id", Value::from(producer.key_id())),
            ("pubkey", Value::from(producer.pubkey())),
            ("valid_from_index", Value::from(0)),
        ])])),
        ("log", object(vec![
            ("log_id", Value::from(log_id)),
            ("operator", Value::from("op-1")),
            ("adaptor", object(vec![
                ("id", Value::from("ahl-adaptor-atl-v1")),
                ("hash", Value::from("sha256:00")),
            ])),
            ("checkpoint_cadence", Value::from(cadence)),
            ("cadence_epoch", Value::from(epoch)),
            ("witness_grace_period", Value::from("PT10M")),
            ("keys", array(vec![object(vec![
                ("key_id", Value::from(log_key.key_id())),
                ("pubkey", Value::from(log_key.pubkey())),
                ("valid_from_index", Value::from(0)),
            ])])),
        ])),
    ])
}

fn fixture(log_key: &ahl_core::TestKey, epoch: &str) -> Fixture {
    let producer =
        ahl_core::TestKey::from_seed_hex("producer", &"77".repeat(32)).expect("seed");
    let log_id = format!("sha256:{}", "aa".repeat(32));
    let genesis_bytes = stored_entry(
        genesis_manifest_payload(&log_id, &producer, log_key, "PT5M", epoch),
        &producer,
    );
    let genesis_id = entry_id_of(&genesis_bytes);

    let mut store = Store::open_in_memory().expect("in-memory store");
    store.stage_entry(&genesis_id, &genesis_bytes).expect("stage genesis");
    store.promote_entry(0, &genesis_id).expect("promote genesis");

    let config = Config::resolve(&ConfigSpec {
        log_id,
        genesis_manifest_entry_id: genesis_id.clone(),
        genesis_producer_keys: vec![KeyObjectSpec {
            key_id: producer.key_id(),
            pubkey: producer.pubkey(),
            valid_from_index: 0,
        }],
        store_path: ":memory:".to_owned(),
    })
    .expect("valid config");

    Fixture { store, config, producer, genesis_id }
}

fn checkpoint_for(
    key: &ahl_core::TestKey,
    log_id: &str,
    tree_size: u64,
    root: [u8; 32],
    time: &str,
) -> Checkpoint {
    signed_checkpoint(key, log_id, tree_size, &format!("sha256:{}", hex::encode(root)), time)
}

fn witness_block(key: &ahl_core::TestKey) -> Value {
    array(vec![object(vec![
        ("witness_id", Value::from("witness-1")),
        ("keys", array(vec![object(vec![
            ("key_id", Value::from(key.key_id())),
            ("pubkey", Value::from(key.pubkey())),
            ("valid_from_index", Value::from(0)),
        ])])),
    ])])
}

fn version_payload(
    log_id: &str,
    producer: &ahl_core::TestKey,
    log_key: &ahl_core::TestKey,
    witness: &ahl_core::TestKey,
    predecessor: Option<&str>,
) -> Value {
    let mut payload = object(vec![
        ("type", Value::from("manifest")),
        ("ahl_version", Value::from(ahl_core::AHL_VERSION)),
        ("producer", Value::from("producer-1")),
        ("keys", array(vec![object(vec![
            ("key_id", Value::from(producer.key_id())),
            ("pubkey", Value::from(producer.pubkey())),
            ("valid_from_index", Value::from(0)),
        ])])),
        ("log", object(vec![
            ("log_id", Value::from(log_id)),
            ("operator", Value::from("op-1")),
            ("adaptor", object(vec![
                ("id", Value::from("ahl-adaptor-atl-v1")),
                ("hash", Value::from("sha256:00")),
            ])),
            ("checkpoint_cadence", Value::from("PT5M")),
            ("cadence_epoch", Value::from("2026-01-01T00:00:00Z")),
            ("witness_grace_period", Value::from("PT10M")),
            ("keys", array(vec![object(vec![
                ("key_id", Value::from(log_key.key_id())),
                ("pubkey", Value::from(log_key.pubkey())),
                ("valid_from_index", Value::from(0)),
            ])])),
        ])),
        ("witnesses", Value::from(witness_block(witness))),
    ]);
    if let Some(predecessor) = predecessor {
        payload["predecessor"] = Value::from(predecessor);
    }
    payload
}

struct ChainFixture {
    store: Store,
    config: Config,
    log_keys: Vec<ahl_core::TestKey>,
    entries: Vec<Vec<u8>>,
    root: [u8; 32],
    tree_size: u64,
}

fn chain_fixture(seed: u8, spec: &[(u8, u8)]) -> ChainFixture {
    let key = |tag: &'static str, byte: u8| {
        ahl_core::TestKey::from_seed_hex(tag, &format!("{byte:02x}").repeat(32)).expect("seed")
    };
    let producer = key("producer", seed);
    let log_id = format!("sha256:{}", format!("{seed:02x}").repeat(32));
    let log_keys: Vec<_> = spec.iter().map(|(log, _)| key("log", *log)).collect();
    let witnesses: Vec<_> = spec.iter().map(|(_, w)| key("witness", *w)).collect();

    let mut entries: Vec<Vec<u8>> = Vec::new();
    let mut predecessor: Option<String> = None;
    for (index, log_key) in log_keys.iter().enumerate() {
        let witness = witnesses.get(index).expect("one witness seed per version");
        let bytes = stored_entry(
            version_payload(&log_id, &producer, log_key, witness, predecessor.as_deref()),
            &producer,
        );
        predecessor = Some(entry_id_of(&bytes));
        entries.push(bytes);
    }
    entries.push(stored_entry(
        object(vec![
            ("type", Value::from("ingestion")),
            ("ahl_version", Value::from(ahl_core::AHL_VERSION)),
        ]),
        &producer,
    ));

    let leaves: Vec<[u8; 32]> = entries.iter().map(|b| log_leaf_hash(b)).collect();
    let root = compute_root(&leaves);
    let tree_size = u64::try_from(entries.len()).expect("small test size");

    let mut store = Store::open_in_memory().expect("in-memory store");
    let genesis_id = entry_id_of(&entries[0]);
    store.stage_entry(&genesis_id, &entries[0]).expect("stage genesis");
    store.promote_entry(0, &genesis_id).expect("promote genesis");
    stage_and_promote_at(&mut store, tree_size, root, &entries[1..], 1);

    let config = Config::resolve(&ConfigSpec {
        log_id,
        genesis_manifest_entry_id: genesis_id,
        genesis_producer_keys: vec![KeyObjectSpec {
            key_id: producer.key_id(),
            pubkey: producer.pubkey(),
            valid_from_index: 0,
        }],
        store_path: ":memory:".to_owned(),
    })
    .expect("valid config");

    ChainFixture { store, config, log_keys, entries, root, tree_size }
}

impl ChainFixture {
    fn signed_by(&self, signer: usize, time: &str) -> Checkpoint {
        checkpoint_for(
            self.log_keys.get(signer).expect("a version in the fixture"),
            &self.config.log_id,
            self.tree_size,
            self.root,
            time,
        )
    }

    fn submit(&mut self, cp: &Checkpoint, rotation_for: Option<u64>) -> MirrorResult<Admission> {
        ingest_checkpoint(&mut self.store, &self.config, cp, None, &Vec::new(), rotation_for)
    }
}

const ROTATING_INDEX: u64 = 1;

#[test]
fn an_outgoing_key_checkpoint_past_a_rotation_is_held_as_rotation_material() {
    let mut fx = chain_fixture(0x40, &[(0x41, 0x4f), (0x42, 0x4f)]);
    let cp = fx.signed_by(0, "2026-01-01T00:02:00.000000000Z");

    let admitted = fx.submit(&cp, None).expect("accepted under the outgoing state");
    assert_eq!(
        admitted,
        Admission { series_member: false, rotation_anchors: vec![ROTATING_INDEX] }
    );

    let held = fx
        .store
        .get_rotation_checkpoint(ROTATING_INDEX)
        .expect("query")
        .expect("held for this rotation");
    assert_eq!(held, cp);
    assert!(fx.store.get_rotation_checkpoint(0).expect("query").is_none());

    let view = series_view(&fx.store, &fx.config).expect("view");
    assert!(
        view.members.is_empty(),
        "rotation material must not appear in the canonical checkpoint series"
    );
    assert_eq!(view.gap_free_frontier, None);
    assert!(itub(&view, 0).is_none());
}

#[test]
fn an_incoming_key_checkpoint_past_a_rotation_is_an_ordinary_series_member() {
    let mut fx = chain_fixture(0x44, &[(0x45, 0x4f), (0x46, 0x4f)]);
    let cp = fx.signed_by(1, "2026-01-01T00:02:00.000000000Z");

    assert_eq!(
        fx.submit(&cp, None).expect("accepted"),
        Admission { series_member: true, rotation_anchors: Vec::new() }
    );
    let view = series_view(&fx.store, &fx.config).expect("view");
    assert_eq!(view.members.len(), 1);
    assert_eq!(view.members[0].checkpoint, cp);
    assert!(fx.store.get_rotation_checkpoint(ROTATING_INDEX).expect("query").is_none());
}

#[test]
fn a_witness_only_rotation_makes_an_ordinary_checkpoint_a_rotation_anchor_too() {
    let mut fx = chain_fixture(0x54, &[(0x55, 0x56), (0x55, 0x57)]);
    let cp = fx.signed_by(1, "2026-01-01T00:02:00.000000000Z");

    assert_eq!(
        fx.submit(&cp, None).expect("accepted"),
        Admission { series_member: true, rotation_anchors: vec![ROTATING_INDEX] },
        "the log key set did not move, so one checkpoint satisfies both rules"
    );

    let view = series_view(&fx.store, &fx.config).expect("view");
    assert_eq!(view.members.len(), 1);
    assert_eq!(view.members[0].checkpoint, cp);
    assert_eq!(fx.store.get_rotation_checkpoint(ROTATING_INDEX).expect("query"), Some(cp));

    assert!(view.root_divergences.is_empty());
    assert_eq!(view.equivocation_floor, None);
}

#[test]
fn a_checkpoint_past_two_rotations_anchors_the_one_its_own_key_retires() {
    let mut fx = chain_fixture(0x58, &[(0x59, 0x5f), (0x5a, 0x5f), (0x5b, 0x5f)]);
    assert_eq!(fx.tree_size, 4, "three versions and one ordinary entry");

    assert_eq!(
        fx.submit(&fx.signed_by(0, "2026-01-01T00:02:00.000000000Z"), None).expect("v0"),
        Admission { series_member: false, rotation_anchors: vec![1] }
    );

    assert_eq!(
        fx.submit(&fx.signed_by(1, "2026-01-01T00:03:00.000000000Z"), None).expect("v1"),
        Admission { series_member: false, rotation_anchors: vec![2] }
    );

    assert_eq!(
        fx.submit(&fx.signed_by(2, "2026-01-01T00:04:00.000000000Z"), None).expect("v2"),
        Admission { series_member: true, rotation_anchors: Vec::new() }
    );

    assert_eq!(
        fx.store.get_rotation_checkpoint(1).expect("query").map(|cp| cp.key_id),
        Some(fx.log_keys[0].key_id())
    );
    assert_eq!(
        fx.store.get_rotation_checkpoint(2).expect("query").map(|cp| cp.key_id),
        Some(fx.log_keys[1].key_id())
    );
}

#[test]
fn a_named_rotation_the_checkpoint_does_not_anchor_is_refused() {
    let mut fx = chain_fixture(0x5c, &[(0x5d, 0x6f), (0x5e, 0x6f), (0x60, 0x6f)]);
    let cp = fx.signed_by(0, "2026-01-01T00:02:00.000000000Z");

    assert_eq!(
        fx.submit(&cp, Some(1)).expect("named correctly"),
        Admission { series_member: false, rotation_anchors: vec![1] }
    );

    assert!(matches!(
        fx.submit(&cp, Some(2)),
        Err(MirrorError::NotRotationMaterial { manifest_entry_index: 2, .. })
    ));

    assert!(matches!(
        fx.submit(&cp, Some(0)),
        Err(MirrorError::NotRotationMaterial { manifest_entry_index: 0, .. })
    ));
}

#[test]
fn naming_one_rotation_still_anchors_every_rotation_the_checkpoint_fits() {
    let mut fx = chain_fixture(0x90, &[(0x91, 0x92), (0x91, 0x93), (0x91, 0x94)]);
    let cp = fx.signed_by(2, "2026-01-01T00:02:00.000000000Z");

    assert_eq!(
        fx.submit(&cp, Some(1)).expect("named one of the two"),
        Admission { series_member: true, rotation_anchors: vec![1, 2] },
        "both rotations are anchored, and the report names both"
    );
    assert_eq!(fx.store.get_rotation_checkpoint(1).expect("query"), Some(cp.clone()));
    assert_eq!(fx.store.get_rotation_checkpoint(2).expect("query"), Some(cp));
}

#[test]
fn an_outgoing_key_checkpoint_at_or_below_the_rotating_index_is_not_rotation_material() {
    let mut fx = chain_fixture(0x48, &[(0x49, 0x4e), (0x4a, 0x4e)]);
    let genesis_leaf = log_leaf_hash(&fx.entries[0]);
    let cp = checkpoint_for(
        &fx.log_keys[0],
        &fx.config.log_id,
        ROTATING_INDEX,
        compute_root(&[genesis_leaf]),
        "2026-01-01T00:01:00.000000000Z",
    );

    assert_eq!(
        fx.submit(&cp, None).expect("accepted"),
        Admission { series_member: true, rotation_anchors: Vec::new() },
        "the version active for tree_size 1 is the genesis manifest, whose log key this is"
    );
    assert!(fx.store.get_rotation_checkpoint(ROTATING_INDEX).expect("query").is_none());

    let prefix = fx.store.get_entries_range(0, fx.tree_size).expect("prefix");
    let versions = manifest::versions(&prefix, &fx.config).expect("governance");
    assert!(matches!(
        rotation_anchors_for(&versions, &fx.config, &cp, None, Some(ROTATING_INDEX)),
        Err(MirrorError::NotRotationMaterial { manifest_entry_index: ROTATING_INDEX, .. })
    ));
}

#[test]
fn a_checkpoint_failing_under_a_non_rotating_version_is_refused_not_retried() {
    let mut fx = chain_fixture(0x4c, &[(0x4d, 0x50), (0x4d, 0x50)]);
    let prefix = fx.store.get_entries_range(0, fx.tree_size).expect("prefix");
    let versions = manifest::versions(&prefix, &fx.config).expect("governance");
    assert_eq!(versions.len(), 2, "two versions were installed");
    assert!(!versions[1].rotates(&versions[0]), "neither key set changed");

    let stranger =
        ahl_core::TestKey::from_seed_hex("stranger", &"51".repeat(32)).expect("seed");
    let cp = checkpoint_for(
        &stranger,
        &fx.config.log_id,
        fx.tree_size,
        fx.root,
        "2026-01-01T00:02:00.000000000Z",
    );
    assert!(rotation_anchors_for(&versions, &fx.config, &cp, None, None)
        .expect("no rotation to search")
        .is_empty());
    assert!(
        matches!(fx.submit(&cp, None), Err(MirrorError::UnknownSigningKey { .. })),
        "refused with the failure it earned under the ordinary rule"
    );
}

#[test]
fn a_rotation_checkpoint_contradicting_a_series_member_is_equivocation() {
    let mut fx = chain_fixture(0x50, &[(0x52, 0x53), (0x61, 0x53)]);

    let series = checkpoint_for(
        &fx.log_keys[1],
        &fx.config.log_id,
        9,
        [0x11; 32],
        "2026-01-01T00:03:00.000000000Z",
    );
    let rotation = checkpoint_for(
        &fx.log_keys[0],
        &fx.config.log_id,
        9,
        [0x22; 32],
        "2026-01-01T00:04:00.000000000Z",
    );
    assert!(fx.submit(&series, None).expect("series").series_member);
    assert_eq!(
        fx.submit(&rotation, None).expect("rotation").rotation_anchors,
        vec![ROTATING_INDEX]
    );

    let view = series_view(&fx.store, &fx.config).expect("view");
    assert_eq!(view.root_divergences, vec![9]);
    assert_eq!(view.equivocation_floor, Some(9));
}

#[test]
fn a_superseded_anchor_contradicting_a_series_member_is_equivocation() {
    let build = |fx: &ChainFixture, signer: usize, tree_size: u64, root: u8, minute: u64| {
        checkpoint_for(
            &fx.log_keys[signer],
            &fx.config.log_id,
            tree_size,
            [root; 32],
            &format!("2026-01-01T00:{minute:02}:00.000000000Z"),
        )
    };
    for order in [[0, 1, 2], [0, 2, 1]] {
        let mut fx = chain_fixture(0x70, &[(0x71, 0x72), (0x73, 0x72)]);
        let offers = [
            fx.signed_by(0, "2026-01-01T00:02:00.000000000Z"),
            build(&fx, 1, 9, 0x11, 3),
            build(&fx, 0, 9, 0x22, 4),
        ];
        for offer in order {
            fx.submit(&offers[offer], None).expect("admitted");
        }
        assert_eq!(
            fx.submit(&offers[2], None).expect("again").rotation_anchors,
            vec![ROTATING_INDEX]
        );

        let view = series_view(&fx.store, &fx.config).expect("view");
        assert_eq!(view.root_divergences, vec![9]);
        assert_eq!(view.equivocation_floor, Some(9));
        assert_eq!(
            fx.store.all_rotation_checkpoints().expect("query"),
            vec![(ROTATING_INDEX, offers[0].clone())]
        );
        assert_eq!(fx.store.superseded_checkpoints(), vec![offers[2].clone()]);
        assert_eq!(
            fx.store.get_rotation_checkpoint(ROTATING_INDEX).expect("query"),
            Some(offers[0].clone())
        );
    }
}

#[test]
fn the_earliest_anchor_is_served_whatever_order_anchors_arrive_in() {
    let mut fx = chain_fixture(0x62, &[(0x63, 0x6a), (0x64, 0x6a)]);
    let later = fx.signed_by(0, "2026-01-01T00:09:00.000000000Z");
    let earlier = fx.signed_by(0, "2026-01-01T00:02:00.000000000Z");

    assert_eq!(fx.submit(&later, None).expect("later").rotation_anchors, vec![ROTATING_INDEX]);

    assert_eq!(
        fx.submit(&earlier, None).expect("earlier").rotation_anchors,
        vec![ROTATING_INDEX]
    );
    assert_eq!(fx.store.get_rotation_checkpoint(ROTATING_INDEX).expect("query"), Some(earlier));
    assert_eq!(fx.store.all_rotation_checkpoints().expect("query").len(), 2);

    let latest = fx.signed_by(0, "2026-01-01T00:11:00.000000000Z");
    assert_eq!(fx.submit(&latest, None).expect("latest").rotation_anchors, vec![ROTATING_INDEX]);
    assert_eq!(fx.store.all_rotation_checkpoints().expect("query").len(), 2);
}

#[test]
fn a_checkpoint_over_the_genesis_manifest_alone_is_authenticated_and_series_usable() {
    let log_key = ahl_core::TestKey::from_seed_hex("log", &"78".repeat(32)).expect("seed");
    let mut fx = fixture(&log_key, "2026-01-01T00:00:00Z");
    let leaves = [log_leaf_hash(&fx.store.get_entries_range(0, 1).expect("range")[0])];
    let root = compute_root(&leaves);
    let cp =
        checkpoint_for(&log_key, &fx.config.log_id, 1, root, "2026-01-01T00:00:00.000000000Z");

    ingest_checkpoint(&mut fx.store, &fx.config, &cp, None, &Vec::new(), None).expect("admits");
    let view = series_view(&fx.store, &fx.config).expect("view");
    assert_eq!(view.members.len(), 1);
    assert_eq!(view.members[0].state, CheckpointState::SeriesUsable);
    assert_eq!(view.gap_free_frontier, Some(1));
}

#[test]
fn a_manifest_with_an_invalid_signature_is_not_governance_and_admission_fails() {
    let log_key = ahl_core::TestKey::from_seed_hex("log", &"79".repeat(32)).expect("seed");
    let impostor =
        ahl_core::TestKey::from_seed_hex("impostor", &"7a".repeat(32)).expect("seed");
    let real_producer =
        ahl_core::TestKey::from_seed_hex("producer", &"7b".repeat(32)).expect("seed");
    let log_id = format!("sha256:{}", "bb".repeat(32));

    let genesis_bytes = stored_entry(
        genesis_manifest_payload(
            &log_id,
            &real_producer,
            &log_key,
            "PT5M",
            "2026-01-01T00:00:00Z",
        ),
        &impostor,
    );
    let genesis_id = entry_id_of(&genesis_bytes);
    let mut store = Store::open_in_memory().expect("in-memory store");
    store.stage_entry(&genesis_id, &genesis_bytes).expect("stage");
    store.promote_entry(0, &genesis_id).expect("promote");
    let config = Config::resolve(&ConfigSpec {
        log_id: log_id.clone(),
        genesis_manifest_entry_id: genesis_id,
        genesis_producer_keys: vec![KeyObjectSpec {
            key_id: real_producer.key_id(),
            pubkey: real_producer.pubkey(),
            valid_from_index: 0,
        }],
        store_path: ":memory:".to_owned(),
    })
    .expect("valid config");

    let leaves = [log_leaf_hash(&store.get_entries_range(0, 1).expect("range")[0])];
    let root = compute_root(&leaves);
    let cp = checkpoint_for(&log_key, &log_id, 1, root, "2026-01-01T00:00:00.000000000Z");
    assert!(matches!(
        ingest_checkpoint(&mut store, &config, &cp, None, &Vec::new(), None),
        Err(MirrorError::GovernanceChainUnresolvable { .. })
    ));
}

#[test]
fn a_manifest_with_a_bad_predecessor_link_does_not_rotate_governance() {
    let log_key = ahl_core::TestKey::from_seed_hex("log", &"7c".repeat(32)).expect("seed");
    let mut fx = fixture(&log_key, "2026-01-01T00:00:00Z");
    let rotated_log_key =
        ahl_core::TestKey::from_seed_hex("log-2", &"7d".repeat(32)).expect("seed");
    let bad_next = stored_entry(
        object(vec![
            ("type", Value::from("manifest")),
            ("ahl_version", Value::from(ahl_core::AHL_VERSION)),
            ("producer", Value::from("producer-1")),
            ("predecessor", Value::from("sha256:not-the-genesis-entry-id")),
            ("keys", array(vec![object(vec![
                ("key_id", Value::from(fx.producer.key_id())),
                ("pubkey", Value::from(fx.producer.pubkey())),
                ("valid_from_index", Value::from(0)),
            ])])),
            ("log", object(vec![
                ("log_id", Value::from(fx.config.log_id.clone())),
                ("operator", Value::from("op-1")),
                ("adaptor", object(vec![
                    ("id", Value::from("ahl-adaptor-atl-v1")),
                    ("hash", Value::from("sha256:00")),
                ])),
                ("checkpoint_cadence", Value::from("PT5M")),
                ("cadence_epoch", Value::from("2026-01-01T00:00:00Z")),
                ("witness_grace_period", Value::from("PT10M")),
                ("keys", array(vec![object(vec![
                    ("key_id", Value::from(rotated_log_key.key_id())),
                    ("pubkey", Value::from(rotated_log_key.pubkey())),
                    ("valid_from_index", Value::from(0)),
                ])])),
            ])),
        ]),
        &fx.producer,
    );

    let genesis_leaf = log_leaf_hash(&fx.store.get_entries_range(0, 1).expect("range")[0]);
    let leaves = [genesis_leaf, log_leaf_hash(&bad_next)];
    let root = compute_root(&leaves);
    stage_and_promote_at(&mut fx.store, 2, root, &[bad_next], 1);

    let cp =
        checkpoint_for(&log_key, &fx.config.log_id, 2, root, "2026-01-01T00:01:00.000000000Z");
    ingest_checkpoint(&mut fx.store, &fx.config, &cp, None, &Vec::new(), None)
        .expect("admits: governance never rotated");
}

#[test]
fn governance_material_can_bootstrap_via_entries_to_promote_in_the_same_operation() {
    let log_key = ahl_core::TestKey::from_seed_hex("log", &"7e".repeat(32)).expect("seed");
    let mut fx = fixture(&log_key, "2026-01-01T00:00:00Z");
    let rotated_log_key =
        ahl_core::TestKey::from_seed_hex("log-2", &"7f".repeat(32)).expect("seed");
    let rotation = stored_entry(
        object(vec![
            ("type", Value::from("manifest")),
            ("ahl_version", Value::from(ahl_core::AHL_VERSION)),
            ("producer", Value::from("producer-1")),
            ("predecessor", Value::from(fx.genesis_id.clone())),
            ("keys", array(vec![object(vec![
                ("key_id", Value::from(fx.producer.key_id())),
                ("pubkey", Value::from(fx.producer.pubkey())),
                ("valid_from_index", Value::from(0)),
            ])])),
            ("log", object(vec![
                ("log_id", Value::from(fx.config.log_id.clone())),
                ("operator", Value::from("op-1")),
                ("adaptor", object(vec![
                    ("id", Value::from("ahl-adaptor-atl-v1")),
                    ("hash", Value::from("sha256:00")),
                ])),
                ("checkpoint_cadence", Value::from("PT5M")),
                ("cadence_epoch", Value::from("2026-01-01T00:00:00Z")),
                ("witness_grace_period", Value::from("PT10M")),
                ("keys", array(vec![object(vec![
                    ("key_id", Value::from(rotated_log_key.key_id())),
                    ("pubkey", Value::from(rotated_log_key.pubkey())),
                    ("valid_from_index", Value::from(1)),
                ])])),
            ])),
        ]),
        &fx.producer,
    );
    let rotation_id = entry_id_of(&rotation);
    fx.store.stage_entry(&rotation_id, &rotation).expect("stage rotation");

    let leaves: Vec<[u8; 32]> = vec![
        log_leaf_hash(&fx.store.get_entries_range(0, 1).expect("range")[0]),
        log_leaf_hash(&rotation),
    ];
    let root = compute_root(&leaves);
    let proof = atl_core::core::merkle::generate_inclusion_proof(1, 2, |level, at| {
        if level == 0 {
            leaves.get(usize::try_from(at).ok()?).copied()
        } else {
            None
        }
    })
    .expect("index within tree");
    let pending = vec![PendingPromotion {
        entry_id: rotation_id,
        leaf_index: 1,
        inclusion_path: ahl_core::proof_path_hex(&proof),
    }];

    let cp = checkpoint_for(
        &rotated_log_key,
        &fx.config.log_id,
        2,
        root,
        "2026-01-01T00:00:00.000000000Z",
    );
    ingest_checkpoint(&mut fx.store, &fx.config, &cp, None, &pending, None)
        .expect("bootstraps its own governing rotation");
    assert_eq!(fx.store.next_index().expect("query"), 2);
}

#[test]
fn a_checkpoint_whose_governing_manifest_is_not_yet_visible_is_refused() {
    let log_key = ahl_core::TestKey::from_seed_hex("log", &"80".repeat(32)).expect("seed");
    let mut store = Store::open_in_memory().expect("in-memory store");
    let log_id = format!("sha256:{}", "aa".repeat(32));
    let config = Config::resolve(&ConfigSpec {
        log_id: log_id.clone(),
        genesis_manifest_entry_id: "sha256:never-seen".to_owned(),
        genesis_producer_keys: vec![KeyObjectSpec {
            key_id: log_key.key_id(),
            pubkey: log_key.pubkey(),
            valid_from_index: 0,
        }],
        store_path: ":memory:".to_owned(),
    })
    .expect("valid config");
    let cp = checkpoint_for(&log_key, &log_id, 0, [0u8; 32], "2026-01-01T00:00:00.000000000Z");
    assert!(matches!(
        ingest_checkpoint(&mut store, &config, &cp, None, &Vec::new(), None),
        Err(MirrorError::GovernanceChainUnresolvable { .. })
    ));
}

#[test]
fn two_individually_signed_but_inconsistent_checkpoints_do_not_both_become_series_usable() {
    let log_key = ahl_core::TestKey::from_seed_hex("log", &"81".repeat(32)).expect("seed");
    let mut fx = fixture(&log_key, "2026-01-01T00:00:00Z");

    let genesis_leaf = log_leaf_hash(&fx.store.get_entries_range(0, 1).expect("range")[0]);
    let genuine_root_1 = compute_root(&[genesis_leaf]);
    let cp_a = checkpoint_for(
        &log_key,
        &fx.config.log_id,
        1,
        genuine_root_1,
        "2026-01-01T00:00:00.000000000Z",
    );
    ingest_checkpoint(&mut fx.store, &fx.config, &cp_a, None, &Vec::new(), None)
        .expect("first checkpoint admits");

    let unrelated: Vec<Vec<u8>> =
        (90u8..92).map(|n| stored_entry(object(vec![("n", Value::from(n))]), &fx.producer)).collect();
    let bogus_root =
        compute_root(&unrelated.iter().map(|b| log_leaf_hash(b)).collect::<Vec<_>>());
    let cp_b = checkpoint_for(
        &log_key,
        &fx.config.log_id,
        2,
        bogus_root,
        "2026-01-01T00:01:00.000000000Z",
    );
    ingest_checkpoint(&mut fx.store, &fx.config, &cp_b, None, &Vec::new(), None)
        .expect("second checkpoint admits");

    let genuine_second = stored_entry(object(vec![("n", Value::from(1))]), &fx.producer);
    let genuine_root_2 = compute_root(&[genesis_leaf, log_leaf_hash(&genuine_second)]);
    stage_and_promote_at(&mut fx.store, 2, genuine_root_2, &[genuine_second], 1);

    let view = series_view(&fx.store, &fx.config).expect("view");
    let state_of = |tree_size: u64| {
        view.members
            .iter()
            .find(|m| m.checkpoint.tree_size == tree_size)
            .expect("present")
            .state
    };
    assert_eq!(state_of(1), CheckpointState::SeriesUsable);
    assert_eq!(state_of(2), CheckpointState::Authenticated);
}

#[test]
fn a_decreasing_checkpoint_time_is_reported_as_a_violation() {
    let log_key = ahl_core::TestKey::from_seed_hex("log", &"82".repeat(32)).expect("seed");
    let mut fx = fixture(&log_key, "2026-01-01T00:00:00Z");
    let genesis_leaf = log_leaf_hash(&fx.store.get_entries_range(0, 1).expect("range")[0]);
    let root_1 = compute_root(&[genesis_leaf]);
    let cp_a = checkpoint_for(
        &log_key,
        &fx.config.log_id,
        1,
        root_1,
        "2026-01-01T00:05:00.000000000Z",
    );
    ingest_checkpoint(&mut fx.store, &fx.config, &cp_a, None, &Vec::new(), None).expect("admits");

    let second = stored_entry(object(vec![("n", Value::from(1))]), &fx.producer);
    let root_2 = compute_root(&[genesis_leaf, log_leaf_hash(&second)]);
    stage_and_promote_at(&mut fx.store, 2, root_2, &[second], 1);

    let cp_b = checkpoint_for(
        &log_key,
        &fx.config.log_id,
        2,
        root_2,
        "2026-01-01T00:04:00.000000000Z",
    );
    ingest_checkpoint(&mut fx.store, &fx.config, &cp_b, None, &Vec::new(), None).expect("admits");

    let view = series_view(&fx.store, &fx.config).expect("view");
    assert_eq!(view.gap_free_frontier, Some(1));
    assert_eq!(view.frontier_stop, Some(FrontierStop::DecreasingTime { after_tree_size: 1 }));
}

#[test]
fn a_cadence_change_does_not_retroactively_validate_an_earlier_gap() {
    let log_key = ahl_core::TestKey::from_seed_hex("log", &"83".repeat(32)).expect("seed");
    let mut fx = fixture(&log_key, "2026-01-01T00:00:00Z");

    let genesis_leaf = log_leaf_hash(&fx.store.get_entries_range(0, 1).expect("range")[0]);
    let root_1 = compute_root(&[genesis_leaf]);

    let cp_a = checkpoint_for(
        &log_key,
        &fx.config.log_id,
        1,
        root_1,
        "2026-01-01T00:01:00.000000000Z",
    );
    ingest_checkpoint(&mut fx.store, &fx.config, &cp_a, None, &Vec::new(), None).expect("admits");

    let relaxed = stored_entry(
        object(vec![
            ("type", Value::from("manifest")),
            ("ahl_version", Value::from(ahl_core::AHL_VERSION)),
            ("producer", Value::from("producer-1")),
            ("predecessor", Value::from(fx.genesis_id.clone())),
            ("keys", array(vec![object(vec![
                ("key_id", Value::from(fx.producer.key_id())),
                ("pubkey", Value::from(fx.producer.pubkey())),
                ("valid_from_index", Value::from(0)),
            ])])),
            ("log", object(vec![
                ("log_id", Value::from(fx.config.log_id.clone())),
                ("operator", Value::from("op-1")),
                ("adaptor", object(vec![
                    ("id", Value::from("ahl-adaptor-atl-v1")),
                    ("hash", Value::from("sha256:00")),
                ])),
                ("checkpoint_cadence", Value::from("PT1H")),
                ("cadence_epoch", Value::from("2026-01-01T00:00:00Z")),
                ("witness_grace_period", Value::from("PT10M")),
                ("keys", array(vec![object(vec![
                    ("key_id", Value::from(log_key.key_id())),
                    ("pubkey", Value::from(log_key.pubkey())),
                    ("valid_from_index", Value::from(0)),
                ])])),
            ])),
        ]),
        &fx.producer,
    );
    let root_2 = compute_root(&[genesis_leaf, log_leaf_hash(&relaxed)]);
    stage_and_promote_at(&mut fx.store, 2, root_2, &[relaxed], 1);

    let cp_b = checkpoint_for(
        &log_key,
        &fx.config.log_id,
        2,
        root_2,
        "2026-01-01T00:41:00.000000000Z",
    );
    ingest_checkpoint(&mut fx.store, &fx.config, &cp_b, None, &Vec::new(), None).expect("admits");

    let view = series_view(&fx.store, &fx.config).expect("view");
    assert_eq!(view.gap_free_frontier, Some(1));
    assert_eq!(view.frontier_stop, Some(FrontierStop::CadenceExceeded { after_tree_size: 1 }));
}

#[test]
fn a_checkpoint_at_the_genesis_checkpoint_size_outside_the_epoch_window_does_not_start_the_series(
) {
    let log_key = ahl_core::TestKey::from_seed_hex("log", &"86".repeat(32)).expect("seed");
    let mut fx = fixture(&log_key, "2026-01-01T00:00:00Z");
    let leaves = [log_leaf_hash(&fx.store.get_entries_range(0, 1).expect("range")[0])];
    let root = compute_root(&leaves);
    let cp =
        checkpoint_for(&log_key, &fx.config.log_id, 1, root, "2026-01-01T01:00:00.000000000Z");

    ingest_checkpoint(&mut fx.store, &fx.config, &cp, None, &Vec::new(), None)
        .expect("authentication does not require a valid series start");
    let view = series_view(&fx.store, &fx.config).expect("view");
    assert_eq!(view.members[0].state, CheckpointState::SeriesUsable);
    assert_eq!(view.gap_free_frontier, None);
    assert_eq!(view.frontier_stop, Some(FrontierStop::NoValidStart));
}

#[test]
fn the_series_may_start_at_any_series_usable_member_within_the_epoch_window_not_only_the_genesis_checkpoint(
) {
    let log_key = ahl_core::TestKey::from_seed_hex("log", &"87".repeat(32)).expect("seed");
    let mut fx = fixture(&log_key, "2026-01-01T00:00:00Z");
    let genesis_leaf = log_leaf_hash(&fx.store.get_entries_range(0, 1).expect("range")[0]);

    let second = stored_entry(object(vec![("n", Value::from(1))]), &fx.producer);
    let root = compute_root(&[genesis_leaf, log_leaf_hash(&second)]);
    stage_and_promote_at(&mut fx.store, 2, root, &[second], 1);
    let cp =
        checkpoint_for(&log_key, &fx.config.log_id, 2, root, "2026-01-01T00:01:00.000000000Z");
    ingest_checkpoint(&mut fx.store, &fx.config, &cp, None, &Vec::new(), None)
        .expect("admits: the genesis checkpoint itself was never published");

    let view = series_view(&fx.store, &fx.config).expect("view");
    assert_eq!(view.gap_free_frontier, Some(2));
    assert_eq!(view.frontier_stop, None);
}

#[test]
fn checkpoints_sharing_a_tree_size_with_different_roots_are_a_root_divergence_finding() {
    let log_key = ahl_core::TestKey::from_seed_hex("log", &"88".repeat(32)).expect("seed");
    let mut fx = fixture(&log_key, "2026-01-01T00:00:00Z");
    let cp_a = checkpoint_for(
        &log_key,
        &fx.config.log_id,
        2,
        [0x01u8; 32],
        "2026-01-01T00:01:00.000000000Z",
    );
    let cp_b = checkpoint_for(
        &log_key,
        &fx.config.log_id,
        2,
        [0x02u8; 32],
        "2026-01-01T00:02:00.000000000Z",
    );
    ingest_checkpoint(&mut fx.store, &fx.config, &cp_a, None, &Vec::new(), None)
        .expect("admits: entries not yet complete for tree_size 2");
    ingest_checkpoint(&mut fx.store, &fx.config, &cp_b, None, &Vec::new(), None)
        .expect("admits: same reason, and a different checkpoint_time avoids the series-member conflict check");

    let view = series_view(&fx.store, &fx.config).expect("view");
    assert_eq!(view.root_divergences, vec![2]);
}

#[test]
fn a_batch_failing_on_its_last_entry_leaves_the_store_byte_identical() {
    let log_key = ahl_core::TestKey::from_seed_hex("log", &"89".repeat(32)).expect("seed");
    let mut fx = fixture(&log_key, "2026-01-01T00:00:00Z");
    let genesis_leaf = log_leaf_hash(&fx.store.get_entries_range(0, 1).expect("range")[0]);

    let e1 = stored_entry(object(vec![("n", Value::from(1))]), &fx.producer);
    let e2 = stored_entry(object(vec![("n", Value::from(2))]), &fx.producer);
    let e3 = stored_entry(object(vec![("n", Value::from(3))]), &fx.producer);
    let leaves = [genesis_leaf, log_leaf_hash(&e1), log_leaf_hash(&e2), log_leaf_hash(&e3)];
    let root = compute_root(&leaves);
    let cp =
        checkpoint_for(&log_key, &fx.config.log_id, 4, root, "2026-01-01T00:01:00.000000000Z");

    fx.store.stage_entry(&entry_id_of(&e1), &e1).expect("stage e1");
    fx.store.stage_entry(&entry_id_of(&e2), &e2).expect("stage e2");
    fx.store.stage_entry(&entry_id_of(&e3), &e3).expect("stage e3");

    let proof_for = |index: u64| {
        let proof = atl_core::core::merkle::generate_inclusion_proof(index, 4, |level, at| {
            if level == 0 {
                leaves.get(usize::try_from(at).ok()?).copied()
            } else {
                None
            }
        })
        .expect("index within tree");
        ahl_core::proof_path_hex(&proof)
    };

    let pending = vec![
        PendingPromotion {
            entry_id: entry_id_of(&e1),
            leaf_index: 1,
            inclusion_path: proof_for(1),
        },
        PendingPromotion {
            entry_id: entry_id_of(&e2),
            leaf_index: 2,
            inclusion_path: proof_for(2),
        },

        PendingPromotion {
            entry_id: entry_id_of(&e3),
            leaf_index: 2,
            inclusion_path: proof_for(2),
        },
    ];

    let next_index_before = fx.store.next_index().expect("query");
    let entries_before = fx.store.get_entries_range(0, next_index_before).expect("query");
    let checkpoints_before = fx.store.all_checkpoints().expect("query");

    let result = ingest_checkpoint(&mut fx.store, &fx.config, &cp, None, &pending, None);
    assert!(result.is_err(), "e3's proof, built for e2's leaf, must not open the root");

    assert_eq!(fx.store.next_index().expect("query"), next_index_before);
    assert_eq!(
        fx.store.get_entries_range(0, next_index_before).expect("query"),
        entries_before,
        "e1 and e2, promoted earlier in the same failed transaction, must not persist"
    );
    assert_eq!(fx.store.all_checkpoints().expect("query"), checkpoints_before);
}

#[test]
fn equivocation_leaves_members_below_the_floor_usable_and_refuses_at_and_beyond_it() {
    let log_key = ahl_core::TestKey::from_seed_hex("log", &"8a".repeat(32)).expect("seed");
    let mut fx = fixture(&log_key, "2026-01-01T00:00:00Z");
    let genesis_leaf = log_leaf_hash(&fx.store.get_entries_range(0, 1).expect("range")[0]);
    let root_1 = compute_root(&[genesis_leaf]);
    let cp_1 = checkpoint_for(
        &log_key,
        &fx.config.log_id,
        1,
        root_1,
        "2026-01-01T00:00:00.000000000Z",
    );
    ingest_checkpoint(&mut fx.store, &fx.config, &cp_1, None, &Vec::new(), None).expect("admits");

    let branch_a = checkpoint_for(
        &log_key,
        &fx.config.log_id,
        2,
        [0x01u8; 32],
        "2026-01-01T00:01:00.000000000Z",
    );
    let branch_b = checkpoint_for(
        &log_key,
        &fx.config.log_id,
        2,
        [0x02u8; 32],
        "2026-01-01T00:02:00.000000000Z",
    );
    ingest_checkpoint(&mut fx.store, &fx.config, &branch_a, None, &Vec::new(), None).expect("admits");
    ingest_checkpoint(&mut fx.store, &fx.config, &branch_b, None, &Vec::new(), None).expect("admits");

    let view = series_view(&fx.store, &fx.config).expect("view");
    assert_eq!(view.root_divergences, vec![2]);
    assert_eq!(view.equivocation_floor, Some(2));

    assert_eq!(view.gap_free_frontier, Some(1));
    assert_eq!(view.frontier_stop, Some(FrontierStop::Equivocation { at_tree_size: 2 }));

    assert_eq!(itub(&view, 0).map(|cp| cp.tree_size), Some(1));

    assert!(itub(&view, 1).is_none());
}
