use ahl_mirror::config::{Config, ConfigSpec, KeyObjectSpec};
use ahl_mirror::error::MirrorError;
use ahl_mirror::manifest::{resolve, versions};
use serde_json::Value;

fn object(members: Vec<(&str, Value)>) -> Value {
    Value::Object(members.into_iter().map(|(name, value)| (name.to_owned(), value)).collect())
}

fn array(items: Vec<Value>) -> Value {
    Value::Array(items)
}

fn config_with(genesis: &ahl_core::TestKey, genesis_entry_id: &str) -> Config {
    Config::resolve(&ConfigSpec {
        log_id: "sha256:aa".to_owned(),
        genesis_manifest_entry_id: genesis_entry_id.to_owned(),
        genesis_producer_keys: vec![KeyObjectSpec {
            key_id: genesis.key_id(),
            pubkey: genesis.pubkey(),
            valid_from_index: 0,
        }],
        store_path: ":memory:".to_owned(),
    })
    .expect("valid config")
}

fn log_block(log_id: &str, cadence: &str, epoch: &str, keys: &Value) -> Value {
    object(vec![
        ("log_id", Value::from(log_id)),
        ("operator", Value::from("op-1")),
        ("adaptor", object(vec![
            ("id", Value::from("ahl-adaptor-atl-v1")),
            ("hash", Value::from("sha256:00")),
        ])),
        ("checkpoint_cadence", Value::from(cadence)),
        ("cadence_epoch", Value::from(epoch)),
        ("witness_grace_period", Value::from("PT10M")),
        ("keys", keys.clone()),
    ])
}

fn genesis_manifest(
    producer: &ahl_core::TestKey,
    log_id: &str,
    producer_keys: &Value,
    log_keys: &Value,
    epoch: &str,
) -> Value {
    let payload = object(vec![
        ("type", Value::from("manifest")),
        ("ahl_version", Value::from(ahl_core::AHL_VERSION)),
        ("producer", Value::from("producer-1")),
        ("keys", producer_keys.clone()),
        ("log", log_block(log_id, "PT5M", epoch, log_keys)),
    ]);
    ahl_core::envelope(payload, producer)
}

fn entry_id_of(envelope: &Value) -> String {
    ahl_core::entry_id(envelope)
}

fn producer_key_array(k: &ahl_core::TestKey) -> Value {
    array(vec![object(vec![
        ("key_id", Value::from(k.key_id())),
        ("pubkey", Value::from(k.pubkey())),
        ("valid_from_index", Value::from(0)),
    ])])
}

#[test]
fn a_verified_genesis_manifest_establishes_governance() {
    let producer =
        ahl_core::TestKey::from_seed_hex("producer", &"01".repeat(32)).expect("seed");
    let log_key = ahl_core::TestKey::from_seed_hex("log", &"02".repeat(32)).expect("seed");
    let genesis_env = genesis_manifest(
        &producer,
        "sha256:aa",
        &producer_key_array(&producer),
        &producer_key_array(&log_key),
        "2026-01-01T00:00:00Z",
    );
    let genesis_id = entry_id_of(&genesis_env);
    let config = config_with(&producer, &genesis_id);
    let bytes = ahl_core::jcs(&genesis_env);

    let state = resolve(&vec![bytes], &config).expect("genesis verifies");
    assert_eq!(state.genesis_entry_index(), 0);
    assert_eq!(state.governing_manifest_entry_index(), 0);
    assert!(state.resolve_log_key(&log_key.key_id(), 0).is_ok());
    assert_eq!(state.cadence_nanos(), 300_000_000_000);
}

#[test]
fn a_manifest_with_an_invalid_producer_signature_is_not_governance() {
    let producer =
        ahl_core::TestKey::from_seed_hex("producer", &"03".repeat(32)).expect("seed");
    let impostor =
        ahl_core::TestKey::from_seed_hex("impostor", &"04".repeat(32)).expect("seed");
    let log_key = ahl_core::TestKey::from_seed_hex("log", &"05".repeat(32)).expect("seed");

    let genesis_env = genesis_manifest(
        &impostor,
        "sha256:aa",
        &producer_key_array(&producer),
        &producer_key_array(&log_key),
        "2026-01-01T00:00:00Z",
    );
    let genesis_id = entry_id_of(&genesis_env);
    let config = config_with(&producer, &genesis_id);
    let bytes = ahl_core::jcs(&genesis_env);

    assert!(matches!(
        resolve(&vec![bytes], &config),
        Err(MirrorError::GovernanceChainUnresolvable { .. })
    ));
}

#[test]
fn a_manifest_with_a_bad_predecessor_link_is_not_governance() {
    let producer =
        ahl_core::TestKey::from_seed_hex("producer", &"06".repeat(32)).expect("seed");
    let log_key = ahl_core::TestKey::from_seed_hex("log", &"07".repeat(32)).expect("seed");
    let genesis_env = genesis_manifest(
        &producer,
        "sha256:aa",
        &producer_key_array(&producer),
        &producer_key_array(&log_key),
        "2026-01-01T00:00:00Z",
    );
    let genesis_id = entry_id_of(&genesis_env);
    let config = config_with(&producer, &genesis_id);

    let rotated_log_key =
        ahl_core::TestKey::from_seed_hex("log-2", &"08".repeat(32)).expect("seed");
    let bad_next_payload = object(vec![
        ("type", Value::from("manifest")),
        ("ahl_version", Value::from(ahl_core::AHL_VERSION)),
        ("producer", Value::from("producer-1")),
        ("predecessor", Value::from("sha256:not-the-genesis-entry-id")),
        ("keys", producer_key_array(&producer)),
        ("log", log_block("sha256:aa", "PT5M", "2026-01-01T00:00:00Z", &producer_key_array(&rotated_log_key))),
    ]);
    let bad_next_env = ahl_core::envelope(bad_next_payload, &producer);

    let entries = vec![ahl_core::jcs(&genesis_env), ahl_core::jcs(&bad_next_env)];
    let state = resolve(&entries, &config).expect("genesis alone still resolves");

    assert!(state.resolve_log_key(&log_key.key_id(), 1).is_ok());
    assert!(state.resolve_log_key(&rotated_log_key.key_id(), 1).is_err());
}

#[test]
fn a_later_manifest_changing_the_epoch_is_malformed_and_ignored() {
    let producer =
        ahl_core::TestKey::from_seed_hex("producer", &"09".repeat(32)).expect("seed");
    let log_key = ahl_core::TestKey::from_seed_hex("log", &"0a".repeat(32)).expect("seed");
    let genesis_env = genesis_manifest(
        &producer,
        "sha256:aa",
        &producer_key_array(&producer),
        &producer_key_array(&log_key),
        "2026-01-01T00:00:00Z",
    );
    let genesis_id = entry_id_of(&genesis_env);
    let config = config_with(&producer, &genesis_id);

    let rotated_log_key =
        ahl_core::TestKey::from_seed_hex("log-2", &"0b".repeat(32)).expect("seed");
    let next_payload = object(vec![
        ("type", Value::from("manifest")),
        ("ahl_version", Value::from(ahl_core::AHL_VERSION)),
        ("producer", Value::from("producer-1")),
        ("predecessor", Value::from(genesis_id.clone())),
        ("keys", producer_key_array(&producer)),
        ("log", log_block("sha256:aa", "PT5M", "2026-06-01T00:00:00Z", &producer_key_array(&rotated_log_key))),
    ]);
    let next_env = ahl_core::envelope(next_payload, &producer);

    let entries = vec![ahl_core::jcs(&genesis_env), ahl_core::jcs(&next_env)];
    let state = resolve(&entries, &config).expect("genesis still resolves");
    assert!(state.resolve_log_key(&log_key.key_id(), 1).is_ok());
    assert!(state.resolve_log_key(&rotated_log_key.key_id(), 1).is_err());
}

#[test]
fn a_valid_rotation_replaces_the_log_key_set_and_keeps_the_epoch() {
    let producer =
        ahl_core::TestKey::from_seed_hex("producer", &"0c".repeat(32)).expect("seed");
    let log_key = ahl_core::TestKey::from_seed_hex("log", &"0d".repeat(32)).expect("seed");
    let genesis_env = genesis_manifest(
        &producer,
        "sha256:aa",
        &producer_key_array(&producer),
        &producer_key_array(&log_key),
        "2026-01-01T00:00:00Z",
    );
    let genesis_id = entry_id_of(&genesis_env);
    let config = config_with(&producer, &genesis_id);

    let rotated_log_key =
        ahl_core::TestKey::from_seed_hex("log-2", &"0e".repeat(32)).expect("seed");
    let next_payload = object(vec![
        ("type", Value::from("manifest")),
        ("ahl_version", Value::from(ahl_core::AHL_VERSION)),
        ("producer", Value::from("producer-1")),
        ("predecessor", Value::from(genesis_id.clone())),
        ("keys", producer_key_array(&producer)),
        ("log", log_block("sha256:aa", "PT1M", "2026-01-01T00:00:00Z", &producer_key_array(&rotated_log_key))),
    ]);
    let next_env = ahl_core::envelope(next_payload, &producer);

    let entries = vec![ahl_core::jcs(&genesis_env), ahl_core::jcs(&next_env)];
    let state = resolve(&entries, &config).expect("valid rotation resolves");
    assert_eq!(state.governing_manifest_entry_index(), 1);
    assert_eq!(state.genesis_entry_index(), 0);
    assert_eq!(state.cadence_nanos(), 60_000_000_000);
    assert!(state.resolve_log_key(&rotated_log_key.key_id(), 1).is_ok());

    assert!(state.resolve_log_key(&log_key.key_id(), 1).is_err());
}

#[test]
fn a_manifest_replacing_only_the_witness_set_is_still_a_rotation() {
    let producer =
        ahl_core::TestKey::from_seed_hex("producer", &"3a".repeat(32)).expect("seed");
    let log_key = ahl_core::TestKey::from_seed_hex("log", &"3b".repeat(32)).expect("seed");
    let witness_1 = ahl_core::TestKey::from_seed_hex("w1", &"3c".repeat(32)).expect("seed");
    let witness_2 = ahl_core::TestKey::from_seed_hex("w2", &"3d".repeat(32)).expect("seed");
    let witnesses = |key: &ahl_core::TestKey| array(vec![object(vec![
        ("witness_id", Value::from("witness-1")),
        ("keys", producer_key_array(key)),
    ])]);

    let mut genesis_payload = object(vec![
        ("type", Value::from("manifest")),
        ("ahl_version", Value::from(ahl_core::AHL_VERSION)),
        ("producer", Value::from("producer-1")),
        ("keys", producer_key_array(&producer)),
        ("log", log_block("sha256:aa", "PT5M", "2026-01-01T00:00:00Z", &producer_key_array(&log_key))),
    ]);
    genesis_payload["witnesses"] = witnesses(&witness_1);
    let genesis_env = ahl_core::envelope(genesis_payload, &producer);
    let genesis_id = entry_id_of(&genesis_env);
    let config = config_with(&producer, &genesis_id);

    let next_payload = object(vec![
        ("type", Value::from("manifest")),
        ("ahl_version", Value::from(ahl_core::AHL_VERSION)),
        ("producer", Value::from("producer-1")),
        ("predecessor", Value::from(genesis_id.clone())),
        ("keys", producer_key_array(&producer)),
        ("log", log_block("sha256:aa", "PT5M", "2026-01-01T00:00:00Z", &producer_key_array(&log_key))),
        ("witnesses", witnesses(&witness_2)),
    ]);
    let next_env = ahl_core::envelope(next_payload, &producer);

    let entries = vec![ahl_core::jcs(&genesis_env), ahl_core::jcs(&next_env)];
    let chain = versions(&entries, &config).expect("valid successor");
    let [outgoing, incoming] = chain.as_slice() else { panic!("two versions") };
    assert_eq!(incoming.governing_manifest_entry_index(), 1);
    assert_eq!(outgoing.governing_manifest_entry_index(), 0);
    assert!(incoming.rotates(outgoing), "the witness key objects differ");

    let unchanged_payload = object(vec![
        ("type", Value::from("manifest")),
        ("ahl_version", Value::from(ahl_core::AHL_VERSION)),
        ("producer", Value::from("producer-1")),
        ("predecessor", Value::from(genesis_id.clone())),
        ("keys", producer_key_array(&producer)),
        ("log", log_block("sha256:aa", "PT1M", "2026-01-01T00:00:00Z", &producer_key_array(&log_key))),
        ("witnesses", witnesses(&witness_1)),
    ]);
    let unchanged_env = ahl_core::envelope(unchanged_payload, &producer);
    let entries = vec![ahl_core::jcs(&genesis_env), ahl_core::jcs(&unchanged_env)];
    let chain = versions(&entries, &config).expect("valid successor");
    let [outgoing, incoming] = chain.as_slice() else { panic!("two versions") };
    assert_eq!(incoming.cadence_nanos(), 60_000_000_000, "the cadence did change");
    assert!(!incoming.rotates(outgoing), "neither key set did");
}

#[test]
fn a_malformed_witnesses_member_is_not_governance() {
    let producer =
        ahl_core::TestKey::from_seed_hex("producer", &"3e".repeat(32)).expect("seed");
    let log_key = ahl_core::TestKey::from_seed_hex("log", &"3f".repeat(32)).expect("seed");
    let mut payload = object(vec![
        ("type", Value::from("manifest")),
        ("ahl_version", Value::from(ahl_core::AHL_VERSION)),
        ("producer", Value::from("producer-1")),
        ("keys", producer_key_array(&producer)),
        ("log", log_block("sha256:aa", "PT5M", "2026-01-01T00:00:00Z", &producer_key_array(&log_key))),
    ]);
    payload["witnesses"] = array(vec![object(vec![("keys", producer_key_array(&log_key))])]);
    let env = ahl_core::envelope(payload, &producer);
    let config = config_with(&producer, &entry_id_of(&env));
    assert!(matches!(
        resolve(&vec![ahl_core::jcs(&env)], &config),
        Err(MirrorError::GovernanceChainUnresolvable { .. })
    ));
}

#[test]
fn an_empty_prefix_is_unresolvable() {
    let producer =
        ahl_core::TestKey::from_seed_hex("producer", &"0f".repeat(32)).expect("seed");
    let config = config_with(&producer, "sha256:never-seen");
    assert!(matches!(
        resolve(&Vec::new(), &config),
        Err(MirrorError::GovernanceChainUnresolvable { tree_size: 0 })
    ));
}

#[test]
fn a_key_statement_rotates_producer_keys_and_gates_later_manifests() {
    let producer =
        ahl_core::TestKey::from_seed_hex("producer", &"10".repeat(32)).expect("seed");
    let producer_2 =
        ahl_core::TestKey::from_seed_hex("producer-2", &"11".repeat(32)).expect("seed");
    let log_key = ahl_core::TestKey::from_seed_hex("log", &"12".repeat(32)).expect("seed");
    let genesis_env = genesis_manifest(
        &producer,
        "sha256:aa",
        &producer_key_array(&producer),
        &producer_key_array(&log_key),
        "2026-01-01T00:00:00Z",
    );
    let genesis_id = entry_id_of(&genesis_env);
    let config = config_with(&producer, &genesis_id);

    let key_payload = object(vec![
        ("type", Value::from("key")),
        ("ahl_version", Value::from(ahl_core::AHL_VERSION)),
        ("action", Value::from("add")),
        ("key", object(vec![
            ("key_id", Value::from(producer_2.key_id())),
            ("pubkey", Value::from(producer_2.pubkey())),
            ("valid_from_index", Value::from(1)),
        ])),
    ]);
    let key_env = ahl_core::envelope(key_payload, &producer);

    let rotated_log_key =
        ahl_core::TestKey::from_seed_hex("log-2", &"13".repeat(32)).expect("seed");
    let next_payload = object(vec![
        ("type", Value::from("manifest")),
        ("ahl_version", Value::from(ahl_core::AHL_VERSION)),
        ("producer", Value::from("producer-1")),
        ("predecessor", Value::from(genesis_id.clone())),
        ("keys", producer_key_array(&producer)),
        ("log", log_block("sha256:aa", "PT5M", "2026-01-01T00:00:00Z", &producer_key_array(&rotated_log_key))),
    ]);
    let next_env = ahl_core::envelope(next_payload, &producer_2);

    let entries =
        vec![ahl_core::jcs(&genesis_env), ahl_core::jcs(&key_env), ahl_core::jcs(&next_env)];
    let state = resolve(&entries, &config).expect("chain resolves");
    assert_eq!(state.governing_manifest_entry_index(), 2);
    assert!(state.resolve_log_key(&rotated_log_key.key_id(), 2).is_ok());
}

#[test]
fn a_genesis_manifest_declaring_a_zero_cadence_is_not_governance() {
    let producer =
        ahl_core::TestKey::from_seed_hex("producer", &"14".repeat(32)).expect("seed");
    let log_key = ahl_core::TestKey::from_seed_hex("log", &"15".repeat(32)).expect("seed");
    let payload = object(vec![
        ("type", Value::from("manifest")),
        ("ahl_version", Value::from(ahl_core::AHL_VERSION)),
        ("producer", Value::from("producer-1")),
        ("keys", producer_key_array(&producer)),
        ("log", log_block("sha256:aa", "PT0S", "2026-01-01T00:00:00Z", &producer_key_array(&log_key))),
    ]);
    let genesis_env = ahl_core::envelope(payload, &producer);
    let genesis_id = entry_id_of(&genesis_env);
    let config = config_with(&producer, &genesis_id);
    let bytes = ahl_core::jcs(&genesis_env);

    assert!(matches!(
        resolve(&vec![bytes], &config),
        Err(MirrorError::GovernanceChainUnresolvable { .. })
    ));
}

#[test]
fn a_genesis_manifest_declaring_an_earlier_revision_is_refused() {
    let producer =
        ahl_core::TestKey::from_seed_hex("producer", &"20".repeat(32)).expect("seed");
    let log_key = ahl_core::TestKey::from_seed_hex("log", &"21".repeat(32)).expect("seed");
    let payload_at = |version: &str| {
        object(vec![
            ("type", Value::from("manifest")),
            ("ahl_version", Value::from(version)),
            ("producer", Value::from("producer-1")),
            ("keys", producer_key_array(&producer)),
            ("log", log_block("sha256:aa", "PT5M", "2026-01-01T00:00:00Z", &producer_key_array(&log_key))),
        ])
    };

    let legacy_env = ahl_core::envelope(payload_at("0.3"), &producer);
    let legacy_config = config_with(&producer, &entry_id_of(&legacy_env));
    let error = resolve(&vec![ahl_core::jcs(&legacy_env)], &legacy_config)
        .expect_err("a genesis declaring 0.3 is refused");
    assert!(
        matches!(
            &error,
            MirrorError::UnsupportedStatementVersion {
                entry_index: 0,
                declared: Some(declared),
                expected,
            } if declared == "0.3" && *expected == ahl_core::AHL_VERSION
        ),
        "expected a refusal naming the declared revision, got: {error:?}"
    );

    let current_env = ahl_core::envelope(payload_at(ahl_core::AHL_VERSION), &producer);
    let current_config = config_with(&producer, &entry_id_of(&current_env));
    let state = resolve(&vec![ahl_core::jcs(&current_env)], &current_config)
        .expect("the same genesis at the current revision resolves");
    assert_eq!(state.governing_manifest_entry_index(), 0);
}

#[test]
fn a_later_manifest_declaring_an_earlier_revision_is_refused() {
    let producer =
        ahl_core::TestKey::from_seed_hex("producer", &"22".repeat(32)).expect("seed");
    let log_key = ahl_core::TestKey::from_seed_hex("log", &"23".repeat(32)).expect("seed");
    let genesis_env = genesis_manifest(
        &producer,
        "sha256:aa",
        &producer_key_array(&producer),
        &producer_key_array(&log_key),
        "2026-01-01T00:00:00Z",
    );
    let genesis_id = entry_id_of(&genesis_env);
    let config = config_with(&producer, &genesis_id);

    let rotated_log_key =
        ahl_core::TestKey::from_seed_hex("log-2", &"24".repeat(32)).expect("seed");
    let next_payload = object(vec![
        ("type", Value::from("manifest")),
        ("ahl_version", Value::from("0.3")),
        ("producer", Value::from("producer-1")),
        ("predecessor", Value::from(genesis_id.clone())),
        ("keys", producer_key_array(&producer)),
        ("log", log_block("sha256:aa", "PT1M", "2026-01-01T00:00:00Z", &producer_key_array(&rotated_log_key))),
    ]);
    let next_env = ahl_core::envelope(next_payload, &producer);

    let entries = vec![ahl_core::jcs(&genesis_env), ahl_core::jcs(&next_env)];
    let error = resolve(&entries, &config).expect_err("a successor declaring 0.3 is refused");
    assert!(
        matches!(
            &error,
            MirrorError::UnsupportedStatementVersion {
                entry_index: 1,
                declared: Some(declared),
                expected,
            } if declared == "0.3" && *expected == ahl_core::AHL_VERSION
        ),
        "expected a refusal at the successor naming the declared revision, got: {error:?}"
    );
}

#[test]
fn a_key_statement_declaring_an_earlier_revision_is_refused() {
    let producer =
        ahl_core::TestKey::from_seed_hex("producer", &"25".repeat(32)).expect("seed");
    let producer_2 =
        ahl_core::TestKey::from_seed_hex("producer-2", &"26".repeat(32)).expect("seed");
    let log_key = ahl_core::TestKey::from_seed_hex("log", &"27".repeat(32)).expect("seed");
    let genesis_env = genesis_manifest(
        &producer,
        "sha256:aa",
        &producer_key_array(&producer),
        &producer_key_array(&log_key),
        "2026-01-01T00:00:00Z",
    );
    let config = config_with(&producer, &entry_id_of(&genesis_env));

    let key_payload = object(vec![
        ("type", Value::from("key")),
        ("ahl_version", Value::from("0.3")),
        ("action", Value::from("add")),
        ("key", object(vec![
            ("key_id", Value::from(producer_2.key_id())),
            ("pubkey", Value::from(producer_2.pubkey())),
            ("valid_from_index", Value::from(1)),
        ])),
    ]);
    let key_env = ahl_core::envelope(key_payload, &producer);

    let entries = vec![ahl_core::jcs(&genesis_env), ahl_core::jcs(&key_env)];
    let error =
        resolve(&entries, &config).expect_err("a key statement declaring 0.3 is refused");
    assert!(
        matches!(
            &error,
            MirrorError::UnsupportedStatementVersion {
                entry_index: 1,
                declared: Some(declared),
                expected,
            } if declared == "0.3" && *expected == ahl_core::AHL_VERSION
        ),
        "expected a refusal at the key statement naming the declared revision, got: {error:?}"
    );
}

#[test]
fn a_genesis_manifest_declaring_no_revision_is_refused() {
    let producer =
        ahl_core::TestKey::from_seed_hex("producer", &"28".repeat(32)).expect("seed");
    let log_key = ahl_core::TestKey::from_seed_hex("log", &"29".repeat(32)).expect("seed");
    let payload = object(vec![
        ("type", Value::from("manifest")),
        ("producer", Value::from("producer-1")),
        ("keys", producer_key_array(&producer)),
        ("log", log_block("sha256:aa", "PT5M", "2026-01-01T00:00:00Z", &producer_key_array(&log_key))),
    ]);
    let genesis_env = ahl_core::envelope(payload, &producer);
    let config = config_with(&producer, &entry_id_of(&genesis_env));

    let error = resolve(&vec![ahl_core::jcs(&genesis_env)], &config)
        .expect_err("a genesis declaring no revision is refused");
    assert!(
        matches!(
            &error,
            MirrorError::UnsupportedStatementVersion {
                entry_index: 0,
                declared: None,
                expected,
            } if *expected == ahl_core::AHL_VERSION
        ),
        "expected a refusal reporting the absent declaration, got: {error:?}"
    );
}

#[test]
fn a_signature_in_the_earlier_member_shape_fails_envelope_verification() {
    let producer =
        ahl_core::TestKey::from_seed_hex("producer", &"2a".repeat(32)).expect("seed");
    let log_key = ahl_core::TestKey::from_seed_hex("log", &"2b".repeat(32)).expect("seed");
    let payload = object(vec![
        ("type", Value::from("manifest")),
        ("ahl_version", Value::from(ahl_core::AHL_VERSION)),
        ("producer", Value::from("producer-1")),
        ("keys", producer_key_array(&producer)),
        ("log", log_block("sha256:aa", "PT5M", "2026-01-01T00:00:00Z", &producer_key_array(&log_key))),
    ]);
    let mut genesis_env = ahl_core::envelope(payload, &producer);
    let signature = genesis_env["signatures"][0]
        .as_object_mut()
        .expect("the envelope helper writes one signature object");
    let key_id = signature.remove("key_id").expect("written under the current member name");
    signature.insert("keyid".to_owned(), key_id);

    let config = config_with(&producer, &entry_id_of(&genesis_env));
    let error = resolve(&vec![ahl_core::jcs(&genesis_env)], &config)
        .expect_err("an unreadable signature entry is refused");
    assert!(
        matches!(&error, MirrorError::Ahl(ahl_core::AhlError::Field(field)) if field == "key_id"),
        "expected an error naming the unreadable `key_id` member, got: {error:?}"
    );
}

#[test]
fn a_key_statement_at_an_earlier_revision_is_refused_before_its_action_is_read() {
    let producer =
        ahl_core::TestKey::from_seed_hex("producer", &"2c".repeat(32)).expect("seed");
    let producer_2 =
        ahl_core::TestKey::from_seed_hex("producer-2", &"2d".repeat(32)).expect("seed");
    let log_key = ahl_core::TestKey::from_seed_hex("log", &"2e".repeat(32)).expect("seed");
    let genesis_env = genesis_manifest(
        &producer,
        "sha256:aa",
        &producer_key_array(&producer),
        &producer_key_array(&log_key),
        "2026-01-01T00:00:00Z",
    );
    let config = config_with(&producer, &entry_id_of(&genesis_env));

    let key_payload = object(vec![
        ("type", Value::from("key")),
        ("ahl_version", Value::from("0.3")),
        ("key", object(vec![
            ("key_id", Value::from(producer_2.key_id())),
            ("pubkey", Value::from(producer_2.pubkey())),
            ("valid_from_index", Value::from(1)),
        ])),
    ]);
    let key_env = ahl_core::envelope(key_payload, &producer);

    let entries = vec![ahl_core::jcs(&genesis_env), ahl_core::jcs(&key_env)];
    let error = resolve(&entries, &config).expect_err(
        "an authentic 0.3 key statement is refused, not skipped for want of an action",
    );
    assert!(
        matches!(
            &error,
            MirrorError::UnsupportedStatementVersion {
                entry_index: 1,
                declared: Some(declared),
                expected,
            } if declared == "0.3" && *expected == ahl_core::AHL_VERSION
        ),
        "expected a refusal at the key statement naming the declared revision, got: {error:?}"
    );
}

#[test]
fn a_later_manifest_at_an_earlier_revision_is_refused_before_predecessor_is_read() {
    let producer =
        ahl_core::TestKey::from_seed_hex("producer", &"2f".repeat(32)).expect("seed");
    let log_key = ahl_core::TestKey::from_seed_hex("log", &"30".repeat(32)).expect("seed");
    let rotated_log_key =
        ahl_core::TestKey::from_seed_hex("log-2", &"31".repeat(32)).expect("seed");
    let genesis_env = genesis_manifest(
        &producer,
        "sha256:aa",
        &producer_key_array(&producer),
        &producer_key_array(&log_key),
        "2026-01-01T00:00:00Z",
    );
    let config = config_with(&producer, &entry_id_of(&genesis_env));

    let manifest_at_0_3 = |predecessor: Option<&str>| {
        let mut payload = object(vec![
            ("type", Value::from("manifest")),
            ("ahl_version", Value::from("0.3")),
            ("producer", Value::from("producer-1")),
            ("keys", producer_key_array(&producer)),
            ("log", log_block("sha256:aa", "PT1M", "2026-01-01T00:00:00Z", &producer_key_array(&rotated_log_key))),
        ]);
        if let Some(predecessor) = predecessor {
            payload["predecessor"] = Value::from(predecessor);
        }
        ahl_core::envelope(payload, &producer)
    };

    for (case, next_env) in [
        ("no predecessor at all", manifest_at_0_3(None)),
        (
            "a predecessor naming nothing in the chain",
            manifest_at_0_3(Some("sha256:not-the-genesis-entry-id")),
        ),
    ] {
        let entries = vec![ahl_core::jcs(&genesis_env), ahl_core::jcs(&next_env)];
        let error = resolve(&entries, &config)
            .expect_err("an authentic 0.3 successor is refused, not skipped");
        assert!(
            matches!(
                &error,
                MirrorError::UnsupportedStatementVersion {
                    entry_index: 1,
                    declared: Some(declared),
                    expected,
                } if declared == "0.3" && *expected == ahl_core::AHL_VERSION
            ),
            "case `{case}`: expected a refusal at the successor, got: {error:?}"
        );
    }
}

#[test]
fn a_genesis_manifest_at_an_earlier_revision_is_refused_before_predecessor_is_read() {
    let producer =
        ahl_core::TestKey::from_seed_hex("producer", &"32".repeat(32)).expect("seed");
    let log_key = ahl_core::TestKey::from_seed_hex("log", &"33".repeat(32)).expect("seed");
    let payload = object(vec![
        ("type", Value::from("manifest")),
        ("ahl_version", Value::from("0.3")),
        ("producer", Value::from("producer-1")),
        ("predecessor", Value::from("sha256:a-genesis-may-not-name-one")),
        ("keys", producer_key_array(&producer)),
        ("log", log_block("sha256:aa", "PT5M", "2026-01-01T00:00:00Z", &producer_key_array(&log_key))),
    ]);
    let genesis_env = ahl_core::envelope(payload, &producer);
    let config = config_with(&producer, &entry_id_of(&genesis_env));

    let error = resolve(&vec![ahl_core::jcs(&genesis_env)], &config)
        .expect_err("an authentic 0.3 genesis candidate is refused");
    assert!(
        matches!(
            &error,
            MirrorError::UnsupportedStatementVersion {
                entry_index: 0,
                declared: Some(declared),
                expected,
            } if declared == "0.3" && *expected == ahl_core::AHL_VERSION
        ),
        "expected a refusal naming the declared revision, got: {error:?}"
    );
}

fn unreadable(mut envelope: Value) -> Value {
    let signature = envelope["signatures"][0].as_object_mut().expect("one signature object");
    let key_id = signature.remove("key_id").expect("its key");
    signature.insert("keyid".to_owned(), key_id);
    envelope
}

#[test]
fn a_later_statement_whose_signature_cannot_be_read_is_skipped() {
    let producer =
        ahl_core::TestKey::from_seed_hex("producer", &"3a".repeat(32)).expect("seed");
    let log_key = ahl_core::TestKey::from_seed_hex("log", &"3b".repeat(32)).expect("seed");
    let genesis_env = genesis_manifest(
        &producer,
        "sha256:aa",
        &producer_key_array(&producer),
        &producer_key_array(&log_key),
        "2026-01-01T00:00:00Z",
    );
    let genesis_id = entry_id_of(&genesis_env);
    let config = config_with(&producer, &genesis_id);

    let rotated = ahl_core::TestKey::from_seed_hex("log-2", &"3c".repeat(32)).expect("seed");
    let manifest = object(vec![
        ("type", Value::from("manifest")),
        ("ahl_version", Value::from(ahl_core::AHL_VERSION)),
        ("producer", Value::from("producer-1")),
        ("predecessor", Value::from(genesis_id)),
        ("keys", producer_key_array(&producer)),
        ("log", log_block("sha256:aa", "PT1M", "2026-01-01T00:00:00Z", &producer_key_array(&rotated))),
    ]);
    let key = object(vec![
        ("type", Value::from("key")),
        ("ahl_version", Value::from(ahl_core::AHL_VERSION)),
        ("action", Value::from("add")),
        ("key", object(vec![
            ("key_id", Value::from(rotated.key_id())),
            ("pubkey", Value::from(rotated.pubkey())),
            ("valid_from_index", Value::from(1)),
        ])),
    ]);
    for payload in [manifest, key] {
        let appended = unreadable(ahl_core::envelope(payload, &producer));
        let entries = vec![ahl_core::jcs(&genesis_env), ahl_core::jcs(&appended)];
        let state = resolve(&entries, &config).expect("the appended entry changes nothing");
        assert_eq!(state.governing_manifest_entry_index(), 0);
        assert_eq!(state.cadence_nanos(), 300_000_000_000);
        assert!(state.resolve_log_key(&log_key.key_id(), 1).is_ok());
        assert!(state.resolve_log_key(&rotated.key_id(), 1).is_err());
    }
}
