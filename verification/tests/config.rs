use ahl_mirror::config::{Config, ConfigSpec, KeyObjectSpec, ResolvedKeyObject};
use ahl_mirror::error::MirrorError;

fn seed_key(seed: &str) -> ahl_core::TestKey {
    ahl_core::TestKey::from_seed_hex("producer", seed).expect("32-byte test seed")
}

fn spec_with(genesis_producer_keys: Vec<KeyObjectSpec>) -> ConfigSpec {
    ConfigSpec {
        log_id: "sha256:aa".to_owned(),
        genesis_manifest_entry_id: "sha256:genesis".to_owned(),
        genesis_producer_keys,
        store_path: ":memory:".to_owned(),
    }
}

#[test]
fn a_correctly_derived_key_resolves() {
    let k = seed_key(&"11".repeat(32));
    let spec = KeyObjectSpec { key_id: k.key_id(), pubkey: k.pubkey(), valid_from_index: 0 };
    let resolved = ResolvedKeyObject::resolve(&spec).expect("matching key_id");
    assert_eq!(resolved.key_id, k.key_id());
}

#[test]
fn a_mismatched_key_id_is_rejected() {
    let k = seed_key(&"22".repeat(32));
    let spec = KeyObjectSpec {
        key_id: "sha256:00".to_owned(),
        pubkey: k.pubkey(),
        valid_from_index: 0,
    };
    assert!(matches!(
        ResolvedKeyObject::resolve(&spec),
        Err(MirrorError::ConfigKeyIdMismatch { .. })
    ));
}

#[test]
fn config_resolves_its_genesis_producer_keys() {
    let k = seed_key(&"33".repeat(32));
    let spec = spec_with(vec![KeyObjectSpec {
        key_id: k.key_id(),
        pubkey: k.pubkey(),
        valid_from_index: 0,
    }]);
    let config = Config::resolve(&spec).expect("valid spec");
    assert_eq!(config.genesis_producer_keys.len(), 1);
    assert_eq!(config.genesis_producer_keys[0].key_id, k.key_id());
    assert_eq!(config.genesis_manifest_entry_id, "sha256:genesis");
}

#[test]
fn an_empty_genesis_producer_key_set_is_rejected() {
    let spec = spec_with(vec![]);
    assert!(matches!(Config::resolve(&spec), Err(MirrorError::NoGenesisProducerKeys)));
}
