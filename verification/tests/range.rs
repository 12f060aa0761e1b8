use ahl_core::range_proof;
use ahl_mirror::checkpoint::Checkpoint;
use ahl_mirror::error::{MirrorError, MirrorResult};
use ahl_mirror::metadata::log_leaf_hash;
use ahl_mirror::range::{
    build_range_response, build_range_response_measured, verify_range_response, EnumeratedEntry,
    RangeEnvelope, RangeProofWire, RangeResponse,
};
use ahl_mirror::store::Store;
use serde_json::Value;

fn compute_root(leaves: &[[u8; 32]]) -> [u8; 32] {
    atl_core::core::merkle::compute_root(leaves)
}

fn object(members: Vec<(&str, Value)>) -> Value {
    Value::Object(members.into_iter().map(|(name, value)| (name.to_owned(), value)).collect())
}

fn array(items: Vec<Value>) -> Value {
    Value::Array(items)
}

fn build_range_response_from_prefix(
    checkpoint: &Checkpoint,
    from_index: u64,
    to_index: u64,
    all_entries: &[Vec<u8>],
) -> MirrorResult<RangeResponse> {
    let have = u64::try_from(all_entries.len())
        .map_err(|_| MirrorError::IndexOverflow { what: "all_entries.len()" })?;
    if have != checkpoint.tree_size {
        return Err(MirrorError::IncompleteEntries { have, need: checkpoint.tree_size });
    }
    if from_index >= to_index || to_index > checkpoint.tree_size {
        return Err(MirrorError::InvalidRange {
            from_index,
            to_index,
            tree_size: checkpoint.tree_size,
        });
    }

    let leaf_hashes: Vec<[u8; 32]> = all_entries.iter().map(|bytes| log_leaf_hash(bytes)).collect();
    let root: [u8; 32] = ahl_core::parse_hash_hex(&checkpoint.root_hash).map_err(MirrorError::Ahl)?;
    if compute_root(&leaf_hashes) != root {
        return Err(MirrorError::CheckpointRootMismatch { tree_size: checkpoint.tree_size });
    }

    let proof = range_proof::generate(&leaf_hashes, from_index, to_index).map_err(MirrorError::Ahl)?;
    let from = usize::try_from(from_index)
        .map_err(|_| MirrorError::IndexOverflow { what: "from_index" })?;
    let to =
        usize::try_from(to_index).map_err(|_| MirrorError::IndexOverflow { what: "to_index" })?;
    let out_of_range =
        || MirrorError::InvalidRange { from_index, to_index, tree_size: checkpoint.tree_size };
    let span = leaf_hashes.get(from..to).ok_or_else(out_of_range)?;
    if !range_proof::verify(&proof, span, &root).map_err(MirrorError::Ahl)? {
        return Err(MirrorError::CheckpointRootMismatch { tree_size: checkpoint.tree_size });
    }

    let entries = all_entries
        .get(from..to)
        .ok_or_else(out_of_range)?
        .iter()
        .enumerate()
        .map(|(offset, bytes)| -> MirrorResult<EnumeratedEntry> {
            let offset = u64::try_from(offset)
                .map_err(|_| MirrorError::IndexOverflow { what: "range offset" })?;
            let entry_index = from_index
                .checked_add(offset)
                .ok_or(MirrorError::IndexOverflow { what: "entry_index" })?;
            let envelope: Value = serde_json::from_slice(bytes).map_err(MirrorError::Json)?;
            Ok(EnumeratedEntry { entry_index, envelope })
        })
        .collect::<MirrorResult<Vec<_>>>()?;

    Ok(RangeResponse {
        range: RangeEnvelope { from_index, to_index },
        entries,
        range_proof: RangeProofWire { adaptor_form: range_proof::encode(&proof) },
        checkpoint: checkpoint.clone(),
    })
}

fn wire_form(response: &RangeResponse) -> Value {
    let entries: Vec<Value> = response
        .entries
        .iter()
        .map(|entry| {
            object(vec![
                ("entry_index", Value::from(entry.entry_index)),
                ("envelope", entry.envelope.clone()),
            ])
        })
        .collect();
    let checkpoint = &response.checkpoint;
    object(vec![
        (
            "range",
            object(vec![
                ("from_index", Value::from(response.range.from_index)),
                ("to_index", Value::from(response.range.to_index)),
            ]),
        ),
        ("entries", array(entries)),
        (
            "range_proof",
            object(vec![("adaptor_form", Value::from(response.range_proof.adaptor_form.clone()))]),
        ),
        (
            "checkpoint",
            object(vec![
                ("log_id", Value::from(checkpoint.log_id.clone())),
                ("tree_size", Value::from(checkpoint.tree_size)),
                ("root_hash", Value::from(checkpoint.root_hash.clone())),
                ("checkpoint_time", Value::from(checkpoint.checkpoint_time.clone())),
                ("key_id", Value::from(checkpoint.key_id.clone())),
                ("signature", Value::from(checkpoint.signature.clone())),
            ]),
        ),
    ])
}

fn number(value: &Value) -> u64 {
    value.as_u64().expect("a number")
}

fn text(value: &Value) -> String {
    value.as_str().expect("a string").to_owned()
}

fn from_wire_form(wire: &Value) -> RangeResponse {
    RangeResponse {
        range: RangeEnvelope {
            from_index: number(&wire["range"]["from_index"]),
            to_index: number(&wire["range"]["to_index"]),
        },
        entries: wire["entries"]
            .as_array()
            .expect("a list")
            .iter()
            .map(|entry| EnumeratedEntry {
                entry_index: number(&entry["entry_index"]),
                envelope: entry["envelope"].clone(),
            })
            .collect(),
        range_proof: RangeProofWire { adaptor_form: text(&wire["range_proof"]["adaptor_form"]) },
        checkpoint: Checkpoint {
            log_id: text(&wire["checkpoint"]["log_id"]),
            tree_size: number(&wire["checkpoint"]["tree_size"]),
            root_hash: text(&wire["checkpoint"]["root_hash"]),
            checkpoint_time: text(&wire["checkpoint"]["checkpoint_time"]),
            key_id: text(&wire["checkpoint"]["key_id"]),
            signature: text(&wire["checkpoint"]["signature"]),
        },
    }
}

fn entry(n: u64) -> Vec<u8> {
    ahl_core::jcs(&object(vec![
        ("payload", object(vec![("n", Value::from(n))])),
        ("signatures", array(vec![object(vec![
            ("key_id", Value::from("sha256:aa")),
            ("sig", Value::from("base64:bb")),
        ])])),
    ]))
}

fn checkpoint_over(entries: &[Vec<u8>]) -> Checkpoint {
    let leaves: Vec<[u8; 32]> = entries.iter().map(|b| log_leaf_hash(b)).collect();
    let root = compute_root(&leaves);
    Checkpoint {
        log_id: "sha256:aa".to_owned(),
        tree_size: u64::try_from(entries.len()).expect("small test size"),
        root_hash: format!("sha256:{}", hex::encode(root)),
        checkpoint_time: "2026-01-01T00:00:00.000000000Z".to_owned(),
        key_id: "sha256:bb".to_owned(),
        signature: "base64:AAAA".to_owned(),
    }
}

fn store_over(count: u64) -> (Store, Vec<Vec<u8>>) {
    let mut store = Store::open_in_memory().expect("in-memory store");
    let mut entries = Vec::new();
    for index in 0..count {
        let bytes = entry(index);
        let id = ahl_core::sha256_hex(&bytes);
        store.stage_entry(&id, &bytes).expect("stage");
        store.promote_entry(index, &id).expect("promote");
        entries.push(bytes);
    }
    (store, entries)
}

#[test]
fn a_full_range_response_round_trips_through_generate_serialize_deserialize_verify() {
    let (store, entries) = store_over(12);
    let checkpoint = checkpoint_over(&entries);

    let response = build_range_response(&store, &checkpoint, 3, 9).expect("valid sub-range");
    let wire = serde_json::to_vec(&wire_form(&response)).expect("serialize");
    let parsed: Value = serde_json::from_slice(&wire).expect("deserialize");
    let round_tripped: RangeResponse = from_wire_form(&parsed);

    assert_eq!(round_tripped.entries.len(), 6);
    assert!(verify_range_response(&round_tripped).expect("well-formed"));
}

#[test]
fn the_full_range_needs_no_subtree_hashes_and_still_verifies() {
    let (store, entries) = store_over(5);
    let checkpoint = checkpoint_over(&entries);
    let response = build_range_response(&store, &checkpoint, 0, 5).expect("full range");
    assert!(verify_range_response(&response).expect("well-formed"));
    assert_eq!(
        range_proof::decode(&response.range_proof.adaptor_form).expect("decode").nodes.len(),
        0
    );
}

#[test]
fn an_incomplete_prefix_is_rejected_before_any_proof_is_built() {
    let (store, entries) = store_over(10);

    let mut checkpoint = checkpoint_over(&entries);
    checkpoint.tree_size = 12;
    assert!(matches!(
        build_range_response(&store, &checkpoint, 0, 5),
        Err(MirrorError::IncompleteEntries { have: 10, need: 12 })
    ));
}

#[test]
fn an_out_of_bounds_range_is_rejected() {
    let (store, entries) = store_over(5);
    let checkpoint = checkpoint_over(&entries);
    assert!(matches!(
        build_range_response(&store, &checkpoint, 3, 3),
        Err(MirrorError::InvalidRange { .. })
    ));
    assert!(matches!(
        build_range_response(&store, &checkpoint, 0, 6),
        Err(MirrorError::InvalidRange { .. })
    ));
}

#[test]
fn a_checkpoint_whose_root_disagrees_with_the_entries_is_rejected() {
    let (store, entries) = store_over(5);
    let mut checkpoint = checkpoint_over(&entries);
    checkpoint.root_hash = format!("sha256:{}", "00".repeat(32));
    assert!(matches!(
        build_range_response(&store, &checkpoint, 0, 5),
        Err(MirrorError::CheckpointRootMismatch { .. })
    ));
}

#[test]
fn a_reordered_response_does_not_verify() {
    let (store, entries) = store_over(6);
    let checkpoint = checkpoint_over(&entries);
    let mut response = build_range_response(&store, &checkpoint, 1, 5).expect("valid");
    response.entries.swap(0, 1);

    assert!(matches!(verify_range_response(&response), Err(MirrorError::InvalidRange { .. })));
}

#[test]
fn a_substituted_entry_fails_verification_without_erroring() {
    let (store, entries) = store_over(6);
    let checkpoint = checkpoint_over(&entries);
    let mut response = build_range_response(&store, &checkpoint, 1, 5).expect("valid");
    let substituted: Value =
        serde_json::from_slice(&entry(99)).expect("well-formed test fixture");
    response.entries[0].envelope = substituted;
    assert!(!verify_range_response(&response).expect("well-formed proof"));
}

#[test]
fn a_missing_cache_node_is_refused_rather_than_recomputed() {
    let (mut store, entries) = store_over(9);
    let checkpoint = checkpoint_over(&entries);
    store.forget_node(3, 0);

    assert!(matches!(
        build_range_response(&store, &checkpoint, 0, 3),
        Err(MirrorError::TreeMaterialMissing { level: 3, node_index: 0 })
    ));
}

#[test]
fn the_windowed_builder_agrees_with_a_full_prefix_build() {
    for size in 1..=33u64 {
        let (store, entries) = store_over(size);
        let checkpoint = checkpoint_over(&entries);
        for from in 0..size {
            for to in (from + 1)..=size {
                let windowed =
                    build_range_response(&store, &checkpoint, from, to).expect("windowed");
                let oracle = build_range_response_from_prefix(&checkpoint, from, to, &entries)
                    .expect("oracle");
                assert_eq!(
                    serde_json::to_vec(&wire_form(&windowed)).expect("serialize windowed"),
                    serde_json::to_vec(&wire_form(&oracle)).expect("serialize oracle"),
                    "tree_size {size}, window [{from}, {to})"
                );
            }
        }
    }
}

#[test]
fn a_ten_entry_window_over_a_ten_thousand_entry_log_reads_only_the_window() {
    const LOG: u64 = 10_000;
    let (store, entries) = store_over(LOG);
    let checkpoint = checkpoint_over(&entries);

    let (response, cost) =
        build_range_response_measured(&store, &checkpoint, 5_000, 5_010).expect("valid window");
    assert!(verify_range_response(&response).expect("well-formed"));

    let window_bytes: u64 = entries[5_000..5_010].iter().map(|b| b.len() as u64).sum();
    assert_eq!(cost.entry_bytes, window_bytes, "entry bytes read are exactly the window's");

    assert_eq!(cost.entry_bytes, 780);
    assert_eq!(cost.tree_nodes, 31);
    assert_eq!(cost.total_bytes(), 1772);

    let full_prefix_bytes: u64 = entries.iter().map(|b| b.len() as u64).sum();
    assert!(
        cost.total_bytes() * 50 < full_prefix_bytes,
        "windowed build read {} bytes; the full-prefix build read {full_prefix_bytes}",
        cost.total_bytes()
    );

    println!(
        "range read cost, 10-entry window over a {LOG}-entry log: \
         before {full_prefix_bytes} bytes (entry bytes for the whole prefix), \
         after {} bytes ({} entry bytes + {} tree nodes x 32)",
        cost.total_bytes(),
        cost.entry_bytes,
        cost.tree_nodes
    );
}
