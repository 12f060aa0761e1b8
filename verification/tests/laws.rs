use ahl_mirror::checkpoint::{
    build_visible_prefix, check_identity, ingest_checkpoint, settle_admission, settle_signature,
    Admission, Checkpoint, MAX_TREE_SIZE,
};
use ahl_mirror::config::{Config, ConfigSpec, KeyObjectSpec};
use ahl_mirror::error::MirrorError;
use ahl_mirror::frontier::{itub, series_view, settle_usability, FrontierStop};
use ahl_mirror::ingest::{promote_entry, stage_entry};
use ahl_mirror::manifest::{resolve, versions};
use ahl_mirror::metadata::log_leaf_hash;
use ahl_mirror::primitives::{entry_id_of, hash_text};
use ahl_mirror::range::{
    build_range_response, check_contiguous, judge_range, verify_range_response, RangeEnvelope,
    RangeProof, RangeProofWire,
};
use ahl_mirror::restore::{EntryRecord, Rows};
use ahl_mirror::retrieval::{retrieve_by_id, settle_retrieval, Retrieved};
use ahl_mirror::store::{InsertOutcome, Store, StoredEntry};
use ahl_mirror::tree::TreeMaterial;
use serde_json::Value;

fn parsed(document: &str) -> Value {
    serde_json::from_str(document).expect("json")
}

fn metadata() -> Value {
    parsed(r#"{"ahl_adaptor":"ahl-adaptor-atl-v1"}"#)
}

fn envelope(n: u64) -> Vec<u8> {
    ahl_core::jcs(&parsed(&format!(
        r#"{{"payload":{{"n":{n}}},"signatures":[{{"key_id":"sha256:aa","sig":"base64:bb"}}]}}"#
    )))
}

fn store_with(count: u64) -> (Store, Vec<Vec<u8>>) {
    let mut store = Store::open_in_memory().expect("in-memory store");
    let entries: Vec<Vec<u8>> = (0..count).map(envelope).collect();
    for (index, bytes) in (0..count).zip(&entries) {
        let id = entry_id_of(bytes);
        store.stage_entry(&id, bytes).expect("stage");
        store.promote_entry(index, &id).expect("promote");
    }
    (store, entries)
}

fn checkpoint(tree_size: u64, root: &str, time: &str) -> Checkpoint {
    Checkpoint {
        log_id: "sha256:aa".to_owned(),
        tree_size,
        root_hash: format!("sha256:{}", root.repeat(32)),
        checkpoint_time: time.to_owned(),
        key_id: "sha256:bb".to_owned(),
        signature: "base64:AAAA".to_owned(),
    }
}

fn true_checkpoint(store: &Store, tree_size: u64) -> Checkpoint {
    let mut cp = checkpoint(tree_size, "00", "2026-01-01T00:00:00.000000000Z");
    cp.root_hash = hash_text(&store.log_root(tree_size).expect("held"));
    cp
}

fn time(minute: u64) -> String {
    format!("2026-01-01T00:{minute:02}:00.000000000Z")
}

fn entry_rows(entries: &[Vec<u8>]) -> Vec<EntryRecord> {
    (0_u64..)
        .zip(entries)
        .map(|(entry_index, bytes)| EntryRecord {
            entry_index,
            entry_id: entry_id_of(bytes),
            envelope: bytes.clone(),
            leaf_hash: Some(log_leaf_hash(bytes).to_vec()),
        })
        .collect()
}

fn rows(entries: Vec<EntryRecord>) -> Rows {
    Rows {
        staged: Vec::new(),
        entries,
        node_count: 0,
        checkpoints: Vec::new(),
        anchors: Vec::new(),
        superseded: Vec::new(),
    }
}

struct Log {
    store: Store,
    config: Config,
    key: ahl_core::TestKey,
}

fn manifest(producer: &ahl_core::TestKey, key: &ahl_core::TestKey, log_id: &str) -> Vec<u8> {
    let payload = parsed(&format!(
        r#"{{"type":"manifest","ahl_version":"{}","producer":"producer-1",
            "keys":[{{"key_id":"{}","pubkey":"{}","valid_from_index":0}}],
            "log":{{"log_id":"{log_id}","operator":"op-1",
                "adaptor":{{"id":"ahl-adaptor-atl-v1","hash":"sha256:00"}},
                "checkpoint_cadence":"PT5M","cadence_epoch":"2026-01-01T00:00:00Z",
                "witness_grace_period":"PT10M",
                "keys":[{{"key_id":"{}","pubkey":"{}","valid_from_index":3}}]}}}}"#,
        ahl_core::AHL_VERSION,
        producer.key_id(),
        producer.pubkey(),
        key.key_id(),
        key.pubkey(),
    ));
    ahl_core::jcs(&ahl_core::envelope(payload, producer))
}

fn log(entries: u64) -> Log {
    let producer = ahl_core::TestKey::from_seed_hex("producer", &"c1".repeat(32)).expect("seed");
    let key = ahl_core::TestKey::from_seed_hex("log", &"c2".repeat(32)).expect("seed");
    let log_id = format!("sha256:{}", "c3".repeat(32));
    let genesis = manifest(&producer, &key, &log_id);
    let mut store = Store::open_in_memory().expect("in-memory store");
    for (index, bytes) in (0_u64..).zip(std::iter::once(genesis.clone()).chain((1..entries).map(envelope))) {
        let id = entry_id_of(&bytes);
        store.stage_entry(&id, &bytes).expect("stage");
        store.promote_entry(index, &id).expect("promote");
    }
    let config = Config::resolve(&ConfigSpec {
        log_id,
        genesis_manifest_entry_id: entry_id_of(&genesis),
        genesis_producer_keys: vec![KeyObjectSpec {
            key_id: producer.key_id(),
            pubkey: producer.pubkey(),
            valid_from_index: 0,
        }],
        store_path: ":memory:".to_owned(),
    })
    .expect("valid config");
    Log { store, config, key }
}

impl Log {
    fn signed(&self, tree_size: u64, root: [u8; 32], time: &str) -> Checkpoint {
        let mut cp = Checkpoint {
            log_id: self.config.log_id.clone(),
            tree_size,
            root_hash: hash_text(&root),
            checkpoint_time: time.to_owned(),
            key_id: self.key.key_id(),
            signature: String::new(),
        };
        cp.signature = self.key.sign(&ahl_mirror::checkpoint::checkpoint_blob(&cp).expect("blob"));
        cp
    }

    fn submit(&mut self, cp: &Checkpoint) -> Result<(), MirrorError> {
        ingest_checkpoint(&mut self.store, &self.config, cp, None, &Vec::new(), None).map(|_| ())
    }
}

// ---- staging, promotion and retrieval ----

#[test]
fn submitting_twice_is_once_and_keeps_other_candidates() {
    let mut store = Store::open_in_memory().expect("in-memory store");
    let (one, two) = (envelope(1), envelope(2));
    let stage = |store: &mut Store, bytes: &[u8]| {
        stage_entry(store, &entry_id_of(bytes), bytes, &metadata()).expect("valid entry")
    };
    assert_eq!(stage(&mut store, &one), InsertOutcome::Inserted);
    assert_eq!(stage(&mut store, &two), InsertOutcome::Inserted);
    assert_eq!(stage(&mut store, &one), InsertOutcome::AlreadyPresent);
    assert_eq!(store.get_staged(&entry_id_of(&one)).expect("query"), Some(one));
    assert_eq!(store.get_staged(&entry_id_of(&two)).expect("query"), Some(two));
    assert_eq!(store.next_index().expect("next index"), 0);
}

#[test]
fn other_bytes_under_a_staged_id_are_refused() {
    let mut store = Store::open_in_memory().expect("in-memory store");
    store.stage_entry("sha256:e0", b"a").expect("stage");
    assert!(matches!(
        store.stage_entry("sha256:e0", b"b"),
        Err(MirrorError::IndexConflict { existing_entry_id, new_entry_id, .. })
            if existing_entry_id == "sha256:e0" && new_entry_id == "sha256:e0"
    ));
    assert_eq!(store.get_staged("sha256:e0").expect("query"), Some(b"a".to_vec()));
}

#[test]
fn only_the_proven_index_of_the_proven_bytes_is_promoted() {
    let (mut store, entries) = store_with(2);
    let third = envelope(2);
    let id = entry_id_of(&third);
    store.stage_entry(&id, &third).expect("stage");
    let mut leaves: Vec<[u8; 32]> = entries.iter().map(|b| log_leaf_hash(b)).collect();
    leaves.push(log_leaf_hash(&third));
    let whole = TreeMaterial::over(&leaves);
    let mut cp = checkpoint(3, "00", &time(0));
    cp.root_hash = hash_text(&whole.open(0, 3).expect("whole"));
    let path: Vec<String> =
        whole.inclusion_proof(2, 3).expect("within").path.iter().map(hash_text).collect();

    assert!(matches!(
        promote_entry(&mut store, &cp, &id, 1, &path),
        Err(MirrorError::InclusionProofInvalid { leaf_index: 1, tree_size: 3, .. })
    ));
    assert!(matches!(
        promote_entry(&mut store, &cp, &id, 7, &path),
        Err(MirrorError::Atl(_))
    ));
    assert_eq!(store.next_index().expect("unchanged"), 2);
    assert_eq!(
        promote_entry(&mut store, &cp, &id, 2, &path).expect("proven"),
        InsertOutcome::Inserted
    );
    assert_eq!(
        promote_entry(&mut store, &cp, &id, 2, &path).expect("repeat"),
        InsertOutcome::AlreadyPresent
    );
    assert_eq!(
        retrieve_by_id(&store, &id).expect("no fault"),
        Retrieved::Present { entry_index: 2, envelope: third }
    );
    for (index, bytes) in (0_u64..).zip(entries) {
        assert_eq!(
            retrieve_by_id(&store, &entry_id_of(&bytes)).expect("no fault"),
            Retrieved::Present { entry_index: index, envelope: bytes }
        );
    }
}

#[test]
fn bytes_that_are_not_their_id_are_never_served() {
    let mut store = Store::open_in_memory().expect("in-memory store");
    store.stage_entry("sha256:e0", b"a").expect("stage");
    store.promote_entry(0, "sha256:e0").expect("promote");
    assert!(matches!(
        retrieve_by_id(&store, "sha256:e0"),
        Err(MirrorError::StoredEntryCorrupt { entry_id }) if entry_id == "sha256:e0"
    ));
    let entry = StoredEntry { entry_index: 4, envelope: b"a".to_vec() };
    assert_eq!(
        settle_retrieval(entry, "id", "id").expect("same id"),
        Retrieved::Present { entry_index: 4, envelope: b"a".to_vec() }
    );
}

// ---- the tree beneath the log ----

#[test]
fn a_lost_sibling_refuses_the_promotion_whole() {
    let (mut store, _) = store_with(3);
    store.forget_node(1, 0);
    let fourth = envelope(3);
    let id = entry_id_of(&fourth);
    store.stage_entry(&id, &fourth).expect("stage");
    assert!(matches!(
        store.promote_entry(3, &id),
        Err(MirrorError::TreeMaterialMissing { level: 1, node_index: 0 })
    ));
    assert_eq!(store.next_index().expect("next index"), 3);
    assert!(store.get_entry_by_id(&id).expect("query").is_none());
    assert_eq!(store.get_staged(&id).expect("query"), Some(fourth));
}

#[test]
fn every_node_is_completed_by_one_entry() {
    let (store, entries) = store_with(13);
    let mut nodes: Vec<(u32, u64)> = Vec::new();
    for index in 0..13 {
        for node in store.nodes_completed_by(index) {
            assert_eq!((node.node_index + 1) << node.level, index + 1);
            assert_eq!(store.tree_node(node.level, node.node_index).map(Vec::from), Some(node.hash));
            nodes.push((node.level, node.node_index));
        }
    }
    nodes.sort_unstable();
    assert_eq!(
        nodes,
        vec![(1, 0), (1, 1), (1, 2), (1, 3), (1, 4), (1, 5), (2, 0), (2, 1), (2, 2), (3, 0)]
    );
    assert_eq!(store.tree_node(0, 12), Some(log_leaf_hash(&entries[12])));
    assert_eq!(store.tree_node(0, 13), None);
    assert_eq!(store.inclusion_proof(12, 13).expect("within").path.len(), 2);
}

#[test]
fn a_store_restores_from_its_rows() {
    let (store, entries) = store_with(6);
    let (early, late) = (checkpoint(2, "01", &time(1)), checkpoint(5, "02", &time(2)));
    let saved = Rows {
        staged: vec![("sha256:s".to_owned(), b"s".to_vec())],
        entries: entry_rows(&entries),
        node_count: 4,
        checkpoints: vec![early.clone(), late.clone()],
        anchors: vec![(1, early.clone())],
        superseded: vec![late.clone()],
    };
    let restored = Store::restore(saved).expect("its own rows");
    assert_eq!(restored.next_index().expect("next index"), 6);
    assert_eq!(restored.get_entries_range(0, 6).expect("entries"), entries);
    assert_eq!(restored.get_staged("sha256:s").expect("query"), Some(b"s".to_vec()));
    assert_eq!(restored.all_checkpoints().expect("series"), vec![early.clone(), late.clone()]);
    assert_eq!(restored.all_rotation_checkpoints().expect("anchors"), vec![(1, early)]);
    assert_eq!(restored.superseded_checkpoints(), vec![late]);
    assert_eq!(restored.log_root(6).expect("root"), store.log_root(6).expect("root"));
}

#[test]
fn rows_that_contradict_one_another_are_refused() {
    let entries: Vec<Vec<u8>> = (0..4).map(envelope).collect();
    let init = |refused: Result<Store, MirrorError>| match refused {
        Err(MirrorError::StoreInit(reason)) => reason,
        Err(other) => panic!("refused otherwise: {other:?}"),
        Ok(_) => panic!("not refused"),
    };

    let mut gap = entry_rows(&entries);
    gap[2].entry_index = 3;
    assert_eq!(init(Store::restore(rows(gap))), "entry rows are not contiguous");

    let mut twice = entry_rows(&entries);
    twice[2].entry_id = twice[0].entry_id.clone();
    assert_eq!(init(Store::restore(rows(twice))), "an entry id occurs twice");

    let mut short = entry_rows(&entries);
    short[1].leaf_hash = Some(vec![0; 31]);
    assert_eq!(init(Store::restore(rows(short))), "a stored leaf hash is not 32 octets");

    let mut unordered = rows(Vec::new());
    unordered.checkpoints = vec![checkpoint(5, "02", &time(2)), checkpoint(2, "01", &time(1))];
    assert_eq!(init(Store::restore(unordered)), "checkpoint rows are not in order");

    let mut unordered = rows(Vec::new());
    unordered.anchors = vec![(1, checkpoint(5, "02", &time(2))), (1, checkpoint(2, "01", &time(1)))];
    assert_eq!(init(Store::restore(unordered)), "rotation rows are not in order");

    let mut unordered = rows(Vec::new());
    unordered.superseded = vec![checkpoint(5, "02", &time(2)), checkpoint(2, "01", &time(1))];
    assert_eq!(init(Store::restore(unordered)), "superseded rows are not in order");

    let mut large = rows(Vec::new());
    large.checkpoints = vec![checkpoint(u64::MAX, "01", &time(1))];
    assert_eq!(init(Store::restore(large)), "a tree size is out of range");
    let mut large = rows(Vec::new());
    large.anchors = vec![(u64::MAX, checkpoint(5, "01", &time(1)))];
    assert_eq!(init(Store::restore(large)), "a manifest entry index is out of range");
}

// ---- the series and the anchors ----

#[test]
fn the_latest_member_of_a_size_is_the_one_looked_up() {
    let mut store = Store::open_in_memory().expect("in-memory store");
    for minute in [3, 1, 2] {
        store.insert_checkpoint(&checkpoint(5, "01", &time(minute))).expect("recorded");
    }
    store.insert_checkpoint(&checkpoint(6, "02", &time(0))).expect("recorded");
    let found = store.get_checkpoint(5).expect("query").expect("present");
    assert_eq!(found.checkpoint_time, time(3));
    assert!(store.get_checkpoint(7).expect("query").is_none());
    let times: Vec<String> =
        store.all_checkpoints().expect("series").into_iter().map(|c| c.checkpoint_time).collect();
    assert_eq!(times, vec![time(1), time(2), time(3), time(0)]);
}

#[test]
fn the_earliest_anchor_of_a_rotation_is_served() {
    let offers = [checkpoint(5, "01", &time(3)), checkpoint(4, "01", &time(9)), checkpoint(5, "01", &time(1))];
    for order in [[0, 1, 2], [2, 1, 0], [1, 0, 2]] {
        let mut store = Store::open_in_memory().expect("in-memory store");
        for offer in order {
            store.insert_rotation_checkpoint(1, &offers[offer]).expect("recorded");
        }
        assert_eq!(store.get_rotation_checkpoint(1).expect("query"), Some(offers[1].clone()));
        assert_eq!(store.get_rotation_checkpoint(2).expect("query"), None);
    }
    let mut store = Store::open_in_memory().expect("in-memory store");
    assert_eq!(
        store.insert_rotation_checkpoint(1, &offers[0]).expect("first"),
        InsertOutcome::Inserted
    );
    assert_eq!(
        store.insert_rotation_checkpoint(1, &offers[0]).expect("again"),
        InsertOutcome::AlreadyPresent
    );
}

#[test]
fn a_superseded_anchor_is_kept_only_where_nothing_else_shows_its_root() {
    let mut store = Store::open_in_memory().expect("in-memory store");
    store.insert_rotation_checkpoint(1, &checkpoint(4, "01", &time(1))).expect("first");
    store.insert_checkpoint(&checkpoint(6, "02", &time(2))).expect("member");

    let agreeing = checkpoint(6, "02", &time(3));
    assert_eq!(
        store.insert_rotation_checkpoint(1, &agreeing).expect("superseded"),
        InsertOutcome::AlreadyPresent
    );
    assert_eq!(store.superseded_checkpoints(), Vec::new());

    let (early, late) = (checkpoint(6, "03", &time(4)), checkpoint(7, "04", &time(5)));
    for cp in [&late, &early, &late, &checkpoint(6, "03", &time(9))] {
        assert_eq!(
            store.insert_rotation_checkpoint(1, cp).expect("superseded"),
            InsertOutcome::AlreadyPresent
        );
    }
    assert_eq!(store.superseded_checkpoints(), vec![early, late]);
    assert_eq!(store.all_rotation_checkpoints().expect("anchors").len(), 1);
}

#[test]
fn a_size_that_no_store_can_address_has_no_visible_prefix() {
    let (store, entries) = store_with(3);
    for target in [MAX_TREE_SIZE + 1, u64::MAX] {
        assert!(matches!(
            build_visible_prefix(&store, &Vec::new(), target, &[0; 32]),
            Err(MirrorError::IndexOverflow { what: "to_index" })
        ));
    }
    assert_eq!(
        build_visible_prefix(&store, &Vec::new(), MAX_TREE_SIZE, &[0; 32]).expect("addressable"),
        entries
    );
}

// ---- range responses ----

#[test]
fn a_response_is_bound_to_its_window_and_its_root() {
    let (store, _) = store_with(7);
    let cp = true_checkpoint(&store, 7);
    for from in 0..7 {
        for to in from + 1..=7 {
            let built = build_range_response(&store, &cp, from, to).expect("within");
            assert!(check_contiguous(&built).is_ok());
            assert!(verify_range_response(&built).expect("well-formed"));
        }
    }
    let mut built = build_range_response(&store, &cp, 2, 5).expect("within");
    built.checkpoint.root_hash = format!("sha256:{}", "00".repeat(32));
    assert!(!verify_range_response(&built).expect("well-formed"));
    built.range_proof = RangeProofWire { adaptor_form: "base64:AAAA".to_owned() };
    assert!(matches!(verify_range_response(&built), Err(MirrorError::Ahl(_))));

    let mut built = build_range_response(&store, &cp, 2, 5).expect("within");
    built.entries.remove(0);
    assert!(matches!(check_contiguous(&built), Err(MirrorError::InvalidRange { .. })));
    let mut built = build_range_response(&store, &cp, 2, 5).expect("within");
    built.entries.pop();
    assert!(matches!(verify_range_response(&built), Err(MirrorError::Ahl(_))));

    let built = build_range_response(&store, &cp, 2, 5).expect("within");
    let carried =
        ahl_core::range_proof::decode(&built.range_proof.adaptor_form).expect("its own form");
    let carried = RangeProof {
        tree_size: carried.tree_size,
        from_index: carried.from_index,
        to_index: carried.to_index,
        nodes: carried.nodes,
    };
    let leaves = store.leaf_hashes_range(2, 5).expect("held");
    assert!(judge_range(&carried, &built.range, &cp, &leaves).expect("usable"));
    let shifted = store.leaf_hashes_range(1, 4).expect("held");
    assert!(!judge_range(&carried, &built.range, &cp, &shifted).expect("usable"));
    let elsewhere = RangeEnvelope { from_index: 1, to_index: 4 };
    assert!(matches!(
        judge_range(&carried, &elsewhere, &cp, &leaves),
        Err(MirrorError::InvalidRange { from_index: 1, to_index: 4, tree_size: 7 })
    ));
}

#[test]
fn a_changed_response_is_found_out() {
    let (store, _) = store_with(7);
    let cp = true_checkpoint(&store, 7);
    let (size, window) = (7, 2..5);
    for at in 0..3 {
        let mut moved = build_range_response(&store, &cp, window.start, window.end).expect("within");
        moved.entries[at].entry_index += 1;
        assert!(matches!(
            verify_range_response(&moved),
            Err(MirrorError::InvalidRange { from_index: 2, to_index: 5, tree_size }) if tree_size == size
        ));
        let mut other = build_range_response(&store, &cp, window.start, window.end).expect("within");
        other.entries[at].envelope =
            serde_json::from_slice(&envelope(90)).expect("another document");
        assert!(!verify_range_response(&other).expect("judged"));
    }
    let mut swapped = build_range_response(&store, &cp, window.start, window.end).expect("within");
    let first = swapped.entries[0].envelope.clone();
    swapped.entries[0].envelope = swapped.entries[1].envelope.clone();
    swapped.entries[1].envelope = first;
    assert!(!verify_range_response(&swapped).expect("judged"));
}

// ---- governance ----

#[test]
fn a_key_signs_nothing_below_its_first_index() {
    let mut log = log(5);
    let entries = log.store.get_entries_range(0, 5).expect("entries");
    let state = resolve(&entries, &log.config).expect("genesis resolves");
    assert!(state.resolve_log_key(&log.key.key_id(), 3).is_ok());
    assert!(matches!(
        state.resolve_log_key(&log.key.key_id(), 2),
        Err(MirrorError::KeyNotYetActive { valid_from_index: 3, tree_size: 2, .. })
    ));
    assert!(matches!(
        state.resolve_log_key("sha256:other", 4),
        Err(MirrorError::UnknownSigningKey { key_id }) if key_id == "sha256:other"
    ));
    assert_eq!(state.cadence_epoch_nanos(), 1_767_225_600_000_000_000);
    assert_eq!(versions(&entries, &log.config).expect("one version").len(), 1);

    let root = log.store.log_root(2).expect("held");
    let early = log.signed(2, root, &time(0));
    assert!(matches!(log.submit(&early), Err(MirrorError::KeyNotYetActive { .. })));
    assert!(log.store.all_checkpoints().expect("series").is_empty());
}

// ---- checkpoints ----

#[test]
fn a_checkpoint_is_for_this_log_and_its_own_blob() {
    let log = log(4);
    let cp = log.signed(4, log.store.log_root(4).expect("held"), &time(0));
    let blob = ahl_mirror::checkpoint::checkpoint_blob(&cp).expect("blob");
    assert!(check_identity(&cp, None, &log.config.log_id).is_ok());
    assert!(check_identity(&cp, Some(&blob), &log.config.log_id).is_ok());
    assert!(matches!(
        check_identity(&cp, Some(&blob[1..]), &log.config.log_id),
        Err(MirrorError::RawBlobMismatch)
    ));
    assert!(matches!(
        check_identity(&cp, None, "sha256:other"),
        Err(MirrorError::WrongLogId { expected, .. }) if expected == "sha256:other"
    ));
    assert!(settle_signature(&cp, true).is_ok());
    assert!(matches!(
        settle_signature(&cp, false),
        Err(MirrorError::SignatureInvalid { key_id }) if key_id == cp.key_id
    ));
}

#[test]
fn a_size_beyond_the_store_is_refused_before_anything_is_read() {
    let mut log = log(4);
    let mut cp = log.signed(4, [0; 32], &time(0));
    cp.tree_size = u64::MAX;
    assert!(matches!(
        log.submit(&cp),
        Err(MirrorError::TreeSizeUnrepresentable { tree_size: u64::MAX, max: 0x7fff_ffff_ffff_ffff })
    ));
}

#[test]
fn a_root_that_contradicts_the_entries_is_not_recorded() {
    let mut log = log(4);
    let wrong = log.signed(4, [9; 32], &time(0));
    assert!(matches!(
        log.submit(&wrong),
        Err(MirrorError::CheckpointRootMismatch { tree_size: 4 })
    ));
    assert!(log.store.all_checkpoints().expect("series").is_empty());
}

#[test]
fn an_admission_is_a_member_an_anchor_or_a_refusal() {
    let log = log(4);
    let entries = log.store.get_entries_range(0, 4).expect("entries");
    let chain = versions(&entries, &log.config).expect("one version");
    let cp = log.signed(4, log.store.log_root(4).expect("held"), &time(0));
    let member = settle_admission(&chain, &log.config, &cp, None, None).expect("member");
    assert_eq!(member, Admission { series_member: true, rotation_anchors: Vec::new() });
    assert!(matches!(
        settle_admission(&chain, &log.config, &cp, None, Some(2)),
        Err(MirrorError::NotRotationMaterial { tree_size: 4, manifest_entry_index: 2, .. })
    ));
    let mut forged = cp.clone();
    forged.tree_size = 5;
    assert!(matches!(
        settle_admission(&chain, &log.config, &forged, None, None),
        Err(MirrorError::SignatureInvalid { .. })
    ));
}

// ---- the frontier ----

#[test]
fn the_frontier_follows_the_cadence_and_stops_below_a_contradiction() {
    let mut log = log(6);
    for (size, minute) in [(3, 0), (4, 4), (5, 9)] {
        let root = log.store.log_root(size).expect("held");
        let cp = log.signed(size, root, &time(minute));
        log.submit(&cp).expect("admitted");
    }
    let view = series_view(&log.store, &log.config).expect("view");
    assert_eq!(view.gap_free_frontier, Some(5));
    assert_eq!(view.equivocation_floor, None);
    assert_eq!(itub(&view, 3).expect("bounded").tree_size, 4);
    assert!(itub(&view, 5).is_none());

    for root in [[1; 32], [2; 32]] {
        let cp = log.signed(9, root, &time(10 + u64::from(root[0])));
        log.submit(&cp).expect("authentic");
    }
    let view = series_view(&log.store, &log.config).expect("view");
    assert_eq!(view.equivocation_floor, Some(9));
    assert_eq!(view.root_divergences, vec![9]);
    assert_eq!(view.gap_free_frontier, Some(5));
    assert_eq!(view.members.len(), 5);
    assert_eq!(itub(&view, 3).expect("still bounded").tree_size, 4);

    let late = log.signed(6, log.store.log_root(6).expect("held"), &time(40));
    log.submit(&late).expect("admitted");
    let view = series_view(&log.store, &log.config).expect("view");
    assert_eq!(view.gap_free_frontier, Some(5));
    assert_eq!(view.frontier_stop, Some(FrontierStop::CadenceExceeded { after_tree_size: 5 }));
    assert_eq!(view.equivocation_floor, Some(9));
}

#[test]
fn an_unreadable_root_is_unusable_but_a_store_fault_is_a_fault() {
    assert!(settle_usability(Ok(true)).expect("usable"));
    assert!(!settle_usability(Ok(false)).expect("unusable"));
    assert!(matches!(
        settle_usability(Err(MirrorError::TreeMaterialMissing { level: 1, node_index: 0 })),
        Err(MirrorError::TreeMaterialMissing { level: 1, node_index: 0 })
    ));

    let mut log = log(4);
    let cp = log.signed(4, log.store.log_root(4).expect("held"), &time(0));
    log.submit(&cp).expect("admitted");
    log.store.forget_node(2, 0);
    assert!(matches!(
        series_view(&log.store, &log.config),
        Err(MirrorError::TreeMaterialMissing { level: 2, node_index: 0 })
    ));
}
