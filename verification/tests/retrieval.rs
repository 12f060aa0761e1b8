use ahl_mirror::retrieval::{retrieve_by_id, Retrieved};
use ahl_mirror::store::Store;
use sha2::{Digest as _, Sha256};

#[test]
fn an_absent_entry_is_reported_as_absent_not_an_error() {
    let store = Store::open_in_memory().expect("in-memory store");
    assert_eq!(retrieve_by_id(&store, "sha256:missing").expect("no error"), Retrieved::Absent);
}

#[test]
fn a_present_entry_is_returned_byte_exact() {
    let mut store = Store::open_in_memory().expect("in-memory store");
    let bytes = b"{\"payload\":{},\"signatures\":[]}".to_vec();
    let id = format!("sha256:{}", hex::encode(Sha256::digest(&bytes)));
    store.stage_entry(&id, &bytes).expect("stage");
    store.promote_entry(0, &id).expect("promote");

    match retrieve_by_id(&store, &id).expect("no error") {
        Retrieved::Present { entry_index, envelope } => {
            assert_eq!(entry_index, 0);
            assert_eq!(envelope, bytes);
        }
        Retrieved::Absent => panic!("expected the entry to be present"),
    }
}
