use ahl_mirror::checkpoint::Checkpoint;
use ahl_mirror::error::MirrorError;
use ahl_mirror::metadata::log_leaf_hash;
use ahl_mirror::proofs::ConsistencyProof;
use ahl_mirror::restore::{EntryRecord, NodeRecord, Rows};
use ahl_mirror::store::{InsertOutcome, Store};
use serde_json::Value;

fn compute_root(leaves: &[[u8; 32]]) -> [u8; 32] {
    atl_core::core::merkle::compute_root(leaves)
}

fn object(members: Vec<(&str, Value)>) -> Value {
    Value::Object(members.into_iter().map(|(name, value)| (name.to_owned(), value)).collect())
}

fn array(items: Vec<Value>) -> Value {
    Value::Array(items)
}

fn consistency_proof_from_entry_bytes(
    entries: &[Vec<u8>],
    from: u64,
    to: u64,
) -> (u64, u64, Vec<[u8; 32]>) {
    let end = usize::try_from(to).expect("small test size");
    let leaves: Vec<[u8; 32]> = entries[..end].iter().map(|b| log_leaf_hash(b)).collect();
    let proof = atl_core::core::merkle::generate_consistency_proof(from, to, |level, index| {
        if level == 0 {
            leaves.get(usize::try_from(index).ok()?).copied()
        } else {
            None
        }
    })
    .expect("oracle");
    (proof.from_size, proof.to_size, proof.path)
}

fn whole(proof: ConsistencyProof) -> (u64, u64, Vec<[u8; 32]>) {
    (proof.from_size, proof.to_size, proof.path)
}

fn entry_rows(entries: &[Vec<u8>]) -> Vec<EntryRecord> {
    (0_u64..)
        .zip(entries)
        .map(|(entry_index, bytes)| EntryRecord {
            entry_index,
            entry_id: ahl_core::sha256_hex(bytes),
            envelope: bytes.clone(),
            leaf_hash: Some(log_leaf_hash(bytes).to_vec()),
        })
        .collect()
}

fn node_rows(store: &Store, count: u64) -> Vec<NodeRecord> {
    (0..count).flat_map(|index| store.nodes_completed_by(index)).collect()
}

fn rows(entries: Vec<EntryRecord>) -> Rows {
    Rows {
        staged: Vec::new(),
        entries,
        node_count: 0,
        checkpoints: Vec::new(),
        anchors: Vec::new(),
        superseded: Vec::new(),
    }
}

fn checkpoint(tree_size: u64) -> Checkpoint {
    Checkpoint {
        log_id: "sha256:aa".to_owned(),
        tree_size,
        root_hash: format!("sha256:{tree_size:064x}"),
        checkpoint_time: "2026-01-01T00:00:00.000000000Z".to_owned(),
        key_id: "sha256:bb".to_owned(),
        signature: "base64:AAAA".to_owned(),
    }
}

fn entry_bytes(n: u64) -> Vec<u8> {
    ahl_core::jcs(&object(vec![
        ("payload", object(vec![("n", Value::from(n))])),
        ("signatures", array(vec![object(vec![
            ("key_id", Value::from("sha256:aa")),
            ("sig", Value::from("base64:bb")),
        ])])),
    ]))
}

fn store_with(count: u64) -> (Store, Vec<Vec<u8>>) {
    let mut store = Store::open_in_memory().expect("in-memory store");
    let mut entries = Vec::new();
    for index in 0..count {
        let bytes = entry_bytes(index);
        let id = ahl_core::sha256_hex(&bytes);
        store.stage_entry(&id, &bytes).expect("stage");
        store.promote_entry(index, &id).expect("promote");
        entries.push(bytes);
    }
    (store, entries)
}

#[test]
fn promotion_records_the_log_leaf_hash_beside_the_entry() {
    let (store, entries) = store_with(5);
    let stored = store.leaf_hashes_range(0, 5).expect("leaf hashes");
    let expected: Vec<[u8; 32]> = entries.iter().map(|b| log_leaf_hash(b)).collect();
    assert_eq!(stored, expected);

    assert_eq!(store.count_entries(0, 5).expect("count"), 5);
    assert_eq!(store.count_entries(0, 99).expect("count"), 5);
}

#[test]
fn the_subtree_cache_opens_every_span_of_the_tree() {
    let (store, entries) = store_with(13);
    let leaves: Vec<[u8; 32]> = entries.iter().map(|b| log_leaf_hash(b)).collect();
    for offset in 0..13usize {
        let offset_u64 = u64::try_from(offset).expect("small test offset");
        for size in 1..=(13 - offset) {
            let expected = compute_root(&leaves[offset..offset + size]);
            let opened = store
                .subtree_root(offset_u64, u64::try_from(size).expect("small test size"))
                .expect("the store holds every leaf of this span");
            assert_eq!(opened, expected, "span [{offset}, {})", offset + size);
        }
    }
}

#[test]
fn the_cached_prover_agrees_with_an_entry_bytes_build() {
    for size in 1..=33_u64 {
        let (store, entries) = store_with(size);
        let leaves: Vec<[u8; 32]> = entries.iter().map(|b| log_leaf_hash(b)).collect();
        for n in 1..=size {
            let end = usize::try_from(n).expect("small test size");
            assert_eq!(
                store.log_root(n).expect("the store holds this prefix"),
                compute_root(&leaves[..end]),
                "tree_size {size}, root over [0, {n})"
            );
            for m in 0..=n {
                assert_eq!(
                    whole(store.consistency_proof(m, n).expect("the store holds this prefix")),
                    consistency_proof_from_entry_bytes(&entries, m, n),
                    "tree_size {size}, consistency ({m}, {n})"
                );
            }
        }
    }
}

#[test]
fn the_empty_tree_root_is_the_hash_of_no_bytes_and_reads_nothing() {
    let (store, _) = store_with(0);
    assert_eq!(store.log_root(0).expect("the empty tree"), compute_root(&[]));
}

#[test]
fn a_consistency_proof_over_a_prefix_the_store_does_not_hold_is_refused() {
    let (store, _) = store_with(4);
    assert!(matches!(
        store.consistency_proof(2, 9),
        Err(MirrorError::IncompleteEntries { have: 4, need: 9 })
    ));
}

#[test]
fn a_consistency_proof_over_a_ten_thousand_entry_log_reads_no_entry_bytes() {
    const LOG: u64 = 10_000;
    let (store, entries) = store_with(LOG);

    let (proof, cost) =
        store.consistency_proof_measured(5_000, LOG).expect("the store holds the prefix");
    assert_eq!(
        whole(proof),
        consistency_proof_from_entry_bytes(&entries, 5_000, LOG),
        "the cached proof is the entry-bytes proof"
    );

    assert_eq!(cost.tree_nodes, 15);
    assert_eq!(cost.total_bytes(), 480);

    let before: u64 = entries.iter().map(|b| b.len() as u64).sum();
    assert!(
        cost.total_bytes().saturating_mul(500) < before,
        "cached prover read {} bytes; the entry-bytes build read {before}",
        cost.total_bytes()
    );

    println!(
        "consistency read cost, sizes 5000 -> {LOG} over a {LOG}-entry log: \
         before {before} bytes (entry bytes for the whole prefix), \
         after {} bytes ({} stored tree nodes x 32)",
        cost.total_bytes(),
        cost.tree_nodes
    );
}

#[test]
fn staging_is_not_index_exclusive() {
    let mut store = Store::open_in_memory().expect("in-memory store");

    store.stage_entry("sha256:genuine", b"genuine bytes").expect("stage genuine");
    store.stage_entry("sha256:garbage", b"garbage bytes").expect("stage garbage");
    assert!(store.get_staged("sha256:genuine").expect("query").is_some());
    assert!(store.get_staged("sha256:garbage").expect("query").is_some());
}

#[test]
fn promotion_requires_a_prior_staged_candidate() {
    let mut store = Store::open_in_memory().expect("in-memory store");
    assert!(matches!(
        store.promote_entry(0, "sha256:never-staged"),
        Err(MirrorError::NotStaged { .. })
    ));
}

#[test]
fn entries_are_stored_and_fetched_by_id_and_range() {
    let mut store = Store::open_in_memory().expect("in-memory store");
    assert_eq!(store.next_index().expect("empty store"), 0);
    store.stage_entry("sha256:e0", b"a").expect("stage");
    store.stage_entry("sha256:e1", b"b").expect("stage");
    assert_eq!(
        store.promote_entry(0, "sha256:e0").expect("first promote"),
        InsertOutcome::Inserted
    );
    assert_eq!(
        store.promote_entry(1, "sha256:e1").expect("second promote"),
        InsertOutcome::Inserted
    );
    assert_eq!(store.next_index().expect("two entries stored"), 2);

    let found = store.get_entry_by_id("sha256:e1").expect("query").expect("present");
    assert_eq!(found.entry_index, 1);
    assert_eq!(found.envelope, b"b");

    let range = store.get_entries_range(0, 2).expect("full range");
    assert_eq!(range, vec![b"a".to_vec(), b"b".to_vec()]);

    assert!(store.get_entry_by_id("sha256:missing").expect("query").is_none());
}

#[test]
fn repeated_identical_promotion_is_idempotent() {
    let mut store = Store::open_in_memory().expect("in-memory store");
    store.stage_entry("sha256:e0", b"a").expect("stage");
    store.promote_entry(0, "sha256:e0").expect("first promote");
    assert_eq!(
        store.promote_entry(0, "sha256:e0").expect("repeat"),
        InsertOutcome::AlreadyPresent
    );
}

#[test]
fn a_conflicting_occupant_is_rejected() {
    let mut store = Store::open_in_memory().expect("in-memory store");
    store.stage_entry("sha256:e0", b"a").expect("stage first");
    store.stage_entry("sha256:other", b"different").expect("stage second");
    store.promote_entry(0, "sha256:e0").expect("first promote");
    assert!(matches!(
        store.promote_entry(0, "sha256:other"),
        Err(MirrorError::IndexConflict { .. })
    ));
}

#[test]
fn a_gap_is_rejected() {
    let mut store = Store::open_in_memory().expect("in-memory store");
    store.stage_entry("sha256:e1", b"b").expect("stage");
    assert!(matches!(
        store.promote_entry(1, "sha256:e1"),
        Err(MirrorError::OutOfOrderIndex { expected: 0, got: 1 })
    ));
}

#[test]
fn the_same_entry_id_at_a_second_index_is_rejected() {
    let mut store = Store::open_in_memory().expect("in-memory store");
    store.stage_entry("sha256:e0", b"a").expect("stage");
    store.promote_entry(0, "sha256:e0").expect("first promote");
    assert!(matches!(
        store.promote_entry(1, "sha256:e0"),
        Err(MirrorError::EntryIdAtDifferentIndex { .. })
    ));
}

#[test]
fn checkpoints_round_trip_and_admit_out_of_order() {
    let mut store = Store::open_in_memory().expect("in-memory store");
    store.insert_checkpoint(&checkpoint(10)).expect("second checkpoint, admitted first");
    store.insert_checkpoint(&checkpoint(5)).expect("first checkpoint, backfilled");

    assert_eq!(store.get_checkpoint(5).expect("query").expect("present").tree_size, 5);
    assert_eq!(
        store
            .all_checkpoints()
            .expect("series")
            .iter()
            .map(|c| c.tree_size)
            .collect::<Vec<_>>(),
        vec![5, 10]
    );
}

#[test]
fn a_quiet_log_may_republish_the_same_tree_size_at_a_later_time() {
    let mut store = Store::open_in_memory().expect("in-memory store");
    let mut idle = checkpoint(5);
    idle.checkpoint_time = "2026-01-01T00:05:00.000000000Z".to_owned();
    store.insert_checkpoint(&checkpoint(5)).expect("first publication");
    store.insert_checkpoint(&idle).expect("idle republication at the same tree_size");

    let series = store.all_checkpoints().expect("series");
    assert_eq!(series.len(), 2);
    assert!(series.iter().all(|cp| cp.tree_size == 5));
}

#[test]
fn a_conflicting_series_member_is_rejected() {
    let mut store = Store::open_in_memory().expect("in-memory store");
    store.insert_checkpoint(&checkpoint(10)).expect("first checkpoint");
    assert_eq!(
        store.insert_checkpoint(&checkpoint(10)).expect("identical repeat"),
        InsertOutcome::AlreadyPresent
    );
    let mut different = checkpoint(10);
    different.root_hash = format!("sha256:{}", "ff".repeat(32));
    assert!(matches!(
        store.insert_checkpoint(&different),
        Err(MirrorError::SeriesMemberConflict { tree_size: 10, .. })
    ));
}

#[test]
fn a_store_written_before_the_leaf_hash_column_is_migrated_on_open() {
    let entries: Vec<Vec<u8>> = (0..7u64).map(entry_bytes).collect();
    let mut legacy = entry_rows(&entries);
    for row in &mut legacy {
        row.leaf_hash = None;
    }

    let store = Store::restore(rows(legacy)).expect("migrate on open");
    let expected: Vec<[u8; 32]> = entries.iter().map(|b| log_leaf_hash(b)).collect();
    assert_eq!(store.leaf_hashes_range(0, 7).expect("backfilled"), expected);
    assert_eq!(store.subtree_root(0, 7).expect("cache rebuilt"), compute_root(&expected));
    assert!(!store.has_cache(&Vec::new()));

    let reopened = Store::restore(rows(entry_rows(&entries))).expect("reopen");
    assert!(reopened.has_cache(&node_rows(&store, 7)));
    assert_eq!(reopened.subtree_root(0, 7).expect("cache"), compute_root(&expected));
}

#[test]
fn a_truncated_subtree_cache_is_rebuilt_on_open() {
    let (before, entries) = store_with(9);
    let mut nodes = node_rows(&before, 9);
    assert_eq!(nodes.len(), 7);
    nodes.retain(|node| node.level != 1);
    assert_eq!(nodes.len(), 3);

    let store = Store::restore(rows(entry_rows(&entries))).expect("reopen");
    assert!(!store.has_cache(&nodes));
    let expected: Vec<[u8; 32]> = entries.iter().map(|b| log_leaf_hash(b)).collect();
    assert_eq!(store.subtree_root(0, 9).expect("cache rebuilt"), compute_root(&expected));
    assert_eq!(node_rows(&store, 9).len(), 7);
    assert!(store.has_cache(&node_rows(&store, 9)));
}

#[test]
fn a_cache_of_the_right_size_and_wrong_content_is_rebuilt_on_open() {
    let (before, entries) = store_with(9);
    let expected: Vec<[u8; 32]> = entries.iter().map(|b| log_leaf_hash(b)).collect();
    let mut forged = entry_rows(&entries);
    forged[4].leaf_hash = Some(vec![0; 32]);
    let store = Store::restore(rows(forged)).expect("reopen");
    assert_eq!(store.leaf_hashes_range(0, 9).expect("derived"), expected);
    assert_eq!(store.log_root(9).expect("rebuilt"), compute_root(&expected));

    let mut wrong = node_rows(&before, 9);
    wrong[3].hash = vec![0; 32];
    assert!(!store.has_cache(&wrong));
    let mut stray = node_rows(&before, 9);
    stray[3].node_index = 40;
    assert!(!store.has_cache(&stray));
    let mut leaf = node_rows(&before, 9);
    leaf[3].level = 0;
    assert!(!store.has_cache(&leaf));
    let mut repeated = node_rows(&before, 9);
    repeated[3] = NodeRecord { level: 1, node_index: 0, hash: repeated[0].hash.clone() };
    assert_eq!((repeated[0].level, repeated[0].node_index), (1, 0));
    assert!(!store.has_cache(&repeated));
    let mut reversed = node_rows(&before, 9);
    reversed.reverse();
    assert!(store.has_cache(&reversed));
    assert!(store.has_cache(&node_rows(&before, 9)));
}

#[test]
fn a_store_that_cannot_be_migrated_is_not_opened() {
    let entries: Vec<Vec<u8>> = (0..2u64).map(entry_bytes).collect();
    let short = || {
        let mut short = entry_rows(&entries);
        for row in &mut short {
            row.leaf_hash = Some(vec![7; 5]);
        }
        short
    };
    assert!(matches!(Store::restore(rows(short())), Err(MirrorError::StoreInit(_))));

    let as_many = Rows { node_count: 1, ..rows(short()) };
    let store = Store::restore(as_many).expect("nothing to migrate");
    let expected: Vec<[u8; 32]> = entries.iter().map(|b| log_leaf_hash(b)).collect();
    assert_eq!(store.leaf_hashes_range(0, 2).expect("derived"), expected);
}

#[test]
fn an_entry_is_held_under_the_id_it_was_staged_under() {
    let mut store = Store::open_in_memory().expect("in-memory store");
    store.stage_entry("sha256:some", b"bytes").expect("stage");
    store.promote_entry(0, "sha256:some").expect("promote");
    assert_eq!(store.entry_id_at(0), Some("sha256:some".to_owned()));
    assert_eq!(store.entry_id_at(1), None);
}
