use ahl_mirror::checkpoint::{checkpoint_blob, parse_checkpoint_time, render_checkpoint_time, Checkpoint};
use ahl_mirror::duration::parse_iso8601_duration_nanos;
use ahl_mirror::error::MirrorError;
use ahl_mirror::ingest::{check_form, check_shape, parse_path, verify_inclusion_for};
use ahl_mirror::json::Json;
use ahl_mirror::metadata::{adaptor_metadata_bytes, log_leaf_hash};
use ahl_mirror::primitives::{entry_id_of, hash_text};
use ahl_mirror::proofs::{
    count_reads, count_reads_over, list_consistency_spans, list_sibling_spans, TreeReadCost,
};
use ahl_mirror::range::RangeReadCost;
use ahl_mirror::restore::expected_nodes;
use ahl_mirror::statement::{decode_key, decode_key_spec, decode_keys, decode_log, decode_witness_keys};
use ahl_mirror::text::{
    chars_of, copy_bytes, is_text_before, join, same_bytes, same_hash, same_text, strip_prefix,
};
use ahl_mirror::timestamp::{has_profile_time_shape, parse_rfc3339_nanos};
use ahl_mirror::tree::TreeMaterial;
use sha2::{Digest as _, Sha256};

fn text(value: &str) -> Json {
    Json::Text(value.to_owned())
}

fn number(value: u64) -> Json {
    Json::Number { text: value.to_string(), unsigned: Some(value) }
}

fn object(members: Vec<(&str, Json)>) -> Json {
    Json::Object(members.into_iter().map(|(name, value)| (name.to_owned(), value)).collect())
}

fn key_object(key: &ahl_core::TestKey) -> Json {
    object(vec![
        ("key_id", text(&key.key_id())),
        ("pubkey", text(&key.pubkey())),
        ("valid_from_index", number(7)),
    ])
}

fn test_key(seed: &str) -> ahl_core::TestKey {
    ahl_core::TestKey::from_seed_hex("key", &seed.repeat(32)).expect("seed")
}

fn leaves(count: u8) -> Vec<[u8; 32]> {
    (0..count).map(|n| [n; 32]).collect()
}

#[test]
fn an_entry_id_is_the_digest_of_the_bytes() {
    assert_eq!(
        entry_id_of(b"abc"),
        "sha256:ba7816bf8f01cfea414140de5dae2223b00361a396177a9cb410ff61f20015ad"
    );
    assert_eq!(
        entry_id_of(b""),
        "sha256:e3b0c44298fc1c149afbf4c8996fb92427ae41e4649b934ca495991b7852b855"
    );
}

#[test]
fn a_hash_text_parses_back() {
    let hash: [u8; 32] = Sha256::digest(b"any").into();
    let rendered = hash_text(&hash);
    let path = parse_path(&vec![rendered.clone(), rendered.to_uppercase().replace("SHA", "sha")])
        .expect("digits of either case");
    assert_eq!(path, vec![hash, hash]);
    for refused in ["", "sha256:00", "md5:00", &rendered[..70], &format!("{rendered}0")] {
        assert!(matches!(parse_path(&vec![refused.to_owned()]), Err(MirrorError::Ahl(_))));
    }
}

#[test]
fn a_leaf_hash_covers_the_entry_and_the_fixed_metadata() {
    let metadata = br#"{"ahl_adaptor":"ahl-adaptor-atl-v1"}"#;
    assert_eq!(adaptor_metadata_bytes(), metadata.to_vec());
    let mut hasher = Sha256::new();
    hasher.update([0u8]);
    hasher.update(Sha256::digest(b"entry"));
    hasher.update(Sha256::digest(metadata));
    let expected: [u8; 32] = hasher.finalize().into();
    assert_eq!(log_leaf_hash(b"entry"), expected);
}

#[test]
fn a_root_combines_the_two_parts_of_the_tree() {
    let combine = |left: [u8; 32], right: [u8; 32]| -> [u8; 32] {
        let mut hasher = Sha256::new();
        hasher.update([1u8]);
        hasher.update(left);
        hasher.update(right);
        hasher.finalize().into()
    };
    let list = leaves(3);
    let material = TreeMaterial::over(&list);
    assert_eq!(material.open(0, 1).expect("one leaf"), list[0]);
    assert_eq!(material.open(0, 2).expect("one node"), combine(list[0], list[1]));
    assert_eq!(
        material.open(0, 3).expect("the whole tree"),
        combine(combine(list[0], list[1]), list[2])
    );
    assert_eq!(material.node(1, 0), Some(combine(list[0], list[1])));
    assert_eq!(material.node(1, 1), None);
    assert_eq!(material.len(), 3);
    assert_eq!(material.leaf(2), list[2]);
}

#[test]
fn tree_material_grows_shrinks_and_forgets() {
    let list = leaves(8);
    let mut grown = TreeMaterial::new();
    for leaf in &list {
        grown.push_leaf(*leaf).expect("every sibling is there");
    }
    let root = TreeMaterial::over(&list).open(0, 8).expect("whole");
    assert_eq!(grown.open(0, 8).expect("whole"), root);
    assert_eq!(grown.find_gap(0, 8), None);

    grown.forget(3, 0);
    assert_eq!(grown.find_gap(0, 8), Some((3, 0)));
    assert!(matches!(
        grown.open(0, 8),
        Err(MirrorError::TreeMaterialMissing { level: 3, node_index: 0 })
    ));
    assert_eq!(grown.open(0, 4).expect("still held"), TreeMaterial::over(&leaves(4)).open(0, 4).expect("whole"));

    grown.truncate(5);
    assert_eq!(grown.len(), 5);
    assert_eq!(
        grown.open(0, 5).expect("the shorter log"),
        TreeMaterial::over(&list[..5].to_vec()).open(0, 5).expect("whole")
    );
}

#[test]
fn the_proofs_of_a_log_open_its_roots() {
    let list = leaves(11);
    let material = TreeMaterial::over(&list);
    let root = material.open(0, 11).expect("whole");
    for index in 0..11_u64 {
        let proof = material.inclusion_proof(index, 11).expect("within the tree");
        let carried = atl_core::core::merkle::InclusionProof {
            leaf_index: index,
            tree_size: 11,
            path: proof.path.clone(),
        };
        let at = usize::try_from(index).expect("small");
        assert!(atl_core::core::merkle::verify_inclusion(&list[at], &carried, &root).expect("shape"));
        assert_eq!(list_sibling_spans(index, 11).len(), proof.path.len());
    }
    for from in 1..=11_u64 {
        let (proof, cost) = material.consistency_proof(from, 11).expect("within the tree");
        let spans = list_consistency_spans(from, 0, 11, true);
        let carried = atl_core::core::merkle::ConsistencyProof {
            from_size: from,
            to_size: 11,
            path: proof.path.clone(),
        };
        let older = material.open(0, from).expect("prefix");
        assert!(atl_core::core::merkle::verify_consistency(&carried, &older, &root).expect("shape"));
        assert_eq!(spans.len(), proof.path.len());
        assert_eq!(cost.tree_nodes, count_reads_over(&spans));
    }
}

#[test]
fn reads_and_nodes_are_counted_exactly() {
    assert_eq!(count_reads(0, 0), 0);
    assert_eq!(count_reads(0, 8), 1);
    assert_eq!(count_reads(0, 10_000), u64::from(10_000_u64.count_ones()));
    assert_eq!(count_reads(3, 2), 2);
    assert_eq!(expected_nodes(0), 0);
    assert_eq!(expected_nodes(1), 0);
    assert_eq!(expected_nodes(9), 4 + 2 + 1);
    assert_eq!(expected_nodes(10_000), 9_995);
    assert_eq!(TreeReadCost { tree_nodes: 15 }.total_bytes(), 480);
    assert_eq!(TreeReadCost { tree_nodes: u64::MAX }.total_bytes(), u64::MAX);
    assert_eq!(RangeReadCost { entry_bytes: 780, tree_nodes: 31 }.total_bytes(), 1772);
    assert_eq!(RangeReadCost { entry_bytes: u64::MAX, tree_nodes: 1 }.total_bytes(), u64::MAX);
}

#[test]
fn an_inclusion_path_is_judged_for_exactly_the_bytes_and_the_index() {
    let entries: Vec<Vec<u8>> = (0..3u8).map(|n| vec![n]).collect();
    let list: Vec<[u8; 32]> = entries.iter().map(|bytes| log_leaf_hash(bytes)).collect();
    let material = TreeMaterial::over(&list);
    let root = material.open(0, 3).expect("whole");
    let path: Vec<String> =
        material.inclusion_proof(1, 3).expect("within").path.iter().map(hash_text).collect();
    assert!(verify_inclusion_for(&entries[1], 1, 3, &path, &root).expect("usable"));
    assert!(!verify_inclusion_for(&entries[2], 1, 3, &path, &root).expect("usable"));
    assert!(!verify_inclusion_for(&entries[1], 0, 3, &path, &root).expect("usable"));
    assert!(!verify_inclusion_for(&entries[1], 1, 3, &path, &[0; 32]).expect("usable"));
    assert!(matches!(
        verify_inclusion_for(&entries[1], 3, 3, &path, &root),
        Err(MirrorError::Atl(_))
    ));
}

#[test]
fn envelope_shapes_and_forms_are_told_apart() {
    let signed = Json::Array(vec![object(vec![("key_id", text("k")), ("sig", text("s"))])]);
    assert!(check_shape(&object(vec![("payload", object(vec![])), ("signatures", signed)])).is_ok());
    for refused in [
        Json::Null,
        object(vec![("payload", object(vec![]))]),
        object(vec![("payload", text("x")), ("signatures", Json::Array(vec![Json::Null]))]),
        object(vec![("payload", object(vec![])), ("signatures", Json::Array(vec![]))]),
    ] {
        assert!(matches!(check_shape(&refused), Err(MirrorError::MalformedEnvelope { .. })));
    }
    let metadata = adaptor_metadata_bytes();
    assert!(check_form(b"{}", b"{}", &metadata).is_ok());
    assert!(matches!(check_form(b"{ }", b"{}", &metadata), Err(MirrorError::NotCanonical)));
    assert!(matches!(
        check_form(b"{}", b"{}", b"{}"),
        Err(MirrorError::WrongAdaptorMetadata { got }) if got == "{}"
    ));
}

#[test]
fn times_are_read_in_their_one_form() {
    assert_eq!(parse_rfc3339_nanos("1970-01-01T00:00:01Z").expect("valid"), 1_000_000_000);
    assert_eq!(parse_rfc3339_nanos("1970-01-01T01:00:00+01:00").expect("valid"), 0);
    for refused in ["", "yesterday", "1969-12-31T23:59:59Z", "1970-01-01"] {
        assert!(matches!(
            parse_rfc3339_nanos(refused),
            Err(MirrorError::BadCadenceEpoch { value }) if value == refused
        ));
    }
    let last = render_checkpoint_time(u64::MAX).expect("every count has a rendering");
    assert_eq!(last, "2554-07-21T23:34:33.709551615Z");
    assert_eq!(parse_checkpoint_time(&last).expect("reads back"), u64::MAX);
    assert!(has_profile_time_shape(&last));
    for refused in [
        "2554-07-21T23:34:33.709551616Z",
        "1969-12-31T23:59:59.999999999Z",
        "2026-13-01T00:00:00.000000000Z",
        "2026-01-01T00:00:00.00000000Z",
    ] {
        assert!(matches!(
            parse_checkpoint_time(refused),
            Err(MirrorError::BadCheckpointTime { value }) if value == refused
        ));
    }
}

#[test]
fn a_duration_is_the_sum_of_its_components() {
    assert_eq!(
        parse_iso8601_duration_nanos("P2DT3H4M5.25S").expect("valid"),
        ((2 * 86_400) + (3 * 3_600) + (4 * 60) + 5) * 1_000_000_000 + 250_000_000
    );
    assert_eq!(parse_iso8601_duration_nanos("P213503D").expect("valid"), 18_446_659_200_000_000_000);
    for refused in [
        "P213504D",
        "PT99999999999999999999S",
        "PT+1S",
        "P-1D",
        "PT1S1M",
        "PTM",
        "P1DT2HxM",
        "PT1.S",
        "pt1s",
        "",
    ] {
        assert!(matches!(
            parse_iso8601_duration_nanos(refused),
            Err(MirrorError::BadDuration { value }) if value == refused
        ));
    }
}

#[test]
fn a_blob_changes_with_every_field_it_signs() {
    let cp = |tree_size: u64, byte: &str, time: &str, origin: &str| Checkpoint {
        log_id: format!("sha256:{}", origin.repeat(32)),
        tree_size,
        root_hash: format!("sha256:{}", byte.repeat(32)),
        checkpoint_time: time.to_owned(),
        key_id: String::new(),
        signature: String::new(),
    };
    let (early, late) = ("2026-01-01T00:00:00.000000000Z", "2026-01-01T00:00:00.000000001Z");
    let base = checkpoint_blob(&cp(1, "00", early, "aa")).expect("well-formed");
    assert_eq!(base.len(), 98);
    assert_ne!(base, checkpoint_blob(&cp(2, "00", early, "aa")).expect("well-formed"));
    assert_ne!(base, checkpoint_blob(&cp(1, "01", early, "aa")).expect("well-formed"));
    assert_ne!(base, checkpoint_blob(&cp(1, "00", late, "aa")).expect("well-formed"));
    assert_ne!(base, checkpoint_blob(&cp(1, "00", early, "ab")).expect("well-formed"));
    assert!(matches!(
        checkpoint_blob(&cp(1, "00", "now", "aa")),
        Err(MirrorError::BadCheckpointTime { .. })
    ));
    assert!(matches!(checkpoint_blob(&cp(1, "0", early, "aa")), Err(MirrorError::Ahl(_))));
}

#[test]
fn key_objects_are_read_and_checked() {
    let key = test_key("51");
    let read = decode_key_spec(&key_object(&key)).expect("a key object");
    assert_eq!((read.key_id, read.pubkey, read.valid_from_index), (key.key_id(), key.pubkey(), 7));
    let resolved = decode_key(&key_object(&key)).expect("its id is its own");
    assert_eq!(resolved.valid_from_index, 7);

    let defaulted = object(vec![("key_id", text(&key.key_id())), ("pubkey", text(&key.pubkey()))]);
    assert_eq!(decode_key_spec(&defaulted).expect("no index").valid_from_index, 0);

    let other = test_key("52");
    let swapped = object(vec![("key_id", text(&other.key_id())), ("pubkey", text(&key.pubkey()))]);
    assert!(decode_key_spec(&swapped).is_some());
    assert!(decode_key(&swapped).is_none());
    assert!(decode_key_spec(&object(vec![("key_id", text("k"))])).is_none());
    assert!(decode_key_spec(&Json::Null).is_none());

    let both = Json::Array(vec![key_object(&key), key_object(&other)]);
    assert_eq!(decode_keys(&both).expect("two keys").len(), 2);
    assert!(decode_keys(&Json::Array(vec![key_object(&key), swapped])).is_none());
    assert!(decode_keys(&Json::Null).is_none());
}

#[test]
fn log_and_witness_blocks_are_read() {
    let key = test_key("53");
    let block = |log_id: Json| {
        object(vec![
            ("log_id", log_id),
            ("operator", text("op-1")),
            ("adaptor", object(vec![("id", text("a")), ("hash", text("sha256:00"))])),
            ("checkpoint_cadence", text("PT5M")),
            ("cadence_epoch", text("2026-01-01T00:00:00Z")),
            ("witness_grace_period", text("PT10M")),
            ("keys", Json::Array(vec![key_object(&key)])),
        ])
    };
    let read = decode_log(&block(text("sha256:aa"))).expect("a whole block");
    assert_eq!(read.checkpoint_cadence, "PT5M");
    assert_eq!(read.cadence_epoch, "2026-01-01T00:00:00Z");
    assert_eq!(read.witness_grace_period, "PT10M");
    assert_eq!((read.log_id.as_str(), read.keys.len()), ("sha256:aa", 1));
    assert!(decode_log(&block(Json::Null)).is_none());
    assert!(decode_log(&Json::Null).is_none());

    assert_eq!(decode_witness_keys(&object(vec![])).expect("none declared").len(), 0);
    let witness = |id: Json| {
        object(vec![(
            "witnesses",
            Json::Array(vec![object(vec![
                ("witness_id", id),
                ("keys", Json::Array(vec![key_object(&key)])),
            ])]),
        )])
    };
    let listed = decode_witness_keys(&witness(text("witness-1"))).expect("one witness");
    assert_eq!(listed.len(), 1);
    assert_eq!(listed[0].0, "witness-1");
    assert_eq!(listed[0].1.key_id, key.key_id());
    assert!(decode_witness_keys(&witness(Json::Null)).is_none());
}

#[test]
fn members_are_found_by_name() {
    let document = object(vec![("a", number(1)), ("b", text("two")), ("b", text("three"))]);
    assert!(matches!(document.member("a"), Some(Json::Number { unsigned: Some(1), .. })));
    assert_eq!(document.text_member("b").map(String::as_str), Some("two"));
    assert!(document.text_member("a").is_none());
    assert!(document.member("c").is_none());
    assert!(Json::Null.member("a").is_none());
}

#[test]
fn texts_and_bytes_are_compared_and_cut() {
    assert!(same_text("é", "é") && !same_text("e", "é"));
    assert!(same_bytes(b"ab", b"ab") && !same_bytes(b"ab", b"abc") && !same_bytes(b"ab", b"ac"));
    assert!(same_hash(&[1; 32], &[1; 32]) && !same_hash(&[1; 32], &[2; 32]));
    assert_eq!(copy_bytes(b"xyz"), b"xyz".to_vec());
    assert_eq!(chars_of("aé"), vec!['a', 'é']);
    assert_eq!(join("sha256:", "00"), "sha256:00");
    assert_eq!(strip_prefix("base64:QQ==", "base64:"), Some("QQ=="));
    assert_eq!(strip_prefix("base32:QQ==", "base64:"), None);
    assert!(is_text_before("2026-01-01", "2026-01-02"));
    assert!(is_text_before("a", "ab") && !is_text_before("ab", "ab") && !is_text_before("b", "ab"));
}

#[test]
fn checkpoint_times_order_as_their_texts() {
    let counts = [
        0,
        1,
        999_999_999,
        1_000_000_000,
        86_399_999_999_999,
        1_767_225_600_000_000_000,
        9_223_372_036_854_775_807,
        u64::MAX,
    ];
    let texts: Vec<String> =
        counts.iter().map(|&count| render_checkpoint_time(count).expect("a rendering")).collect();
    assert_eq!(texts[7], "2554-07-21T23:34:33.709551615Z");
    for (i, a) in texts.iter().enumerate() {
        assert_eq!(parse_checkpoint_time(a).expect("its own text"), counts[i]);
        for (j, b) in texts.iter().enumerate() {
            assert_eq!(a < b, counts[i] < counts[j]);
        }
    }
}
