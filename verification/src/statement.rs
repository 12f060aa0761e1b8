//! Reading governance statements: key objects, the `log` block and the witness blocks.
//!
//! A record is written as an object, whose unknown members are ignored, or as an array of its
//! fields in order.

use vstd::prelude::*;

use crate::config::{resolved_key, KeyObjectSpec, KeySpecView, KeyView, ResolvedKeyObject};
use crate::json::{Json, JsonTree};

verus! {

/// The field of a record that is named `name` and stands at `position` of `arity`.
pub open spec fn field(record: JsonTree, name: Seq<char>, position: int, arity: int) -> Option<
    JsonTree,
> {
    match record {
        JsonTree::Object(_) => record.member(name),
        JsonTree::Array(items) => if items.len() <= arity && position < items.len() {
            Some(items[position])
        } else {
            None
        },
        _ => None,
    }
}

/// The string a field of a record holds, where it holds one.
pub open spec fn text_field(
    record: JsonTree,
    name: Seq<char>,
    position: int,
    arity: int,
) -> Option<Seq<char>> {
    match field(record, name, position, arity) {
        Some(JsonTree::Text(text)) => Some(text),
        _ => None,
    }
}

/// The field of a record.
fn read_field<'a>(record: &'a Json, name: &str, position: usize, arity: usize) -> (found: Option<
    &'a Json,
>)
    ensures
        match found {
            Some(json) => field(record@, name@, position as int, arity as int) == Some(json@),
            None => field(record@, name@, position as int, arity as int) is None,
        },
{
    match record {
        Json::Object(_) => record.member(name),
        Json::Array(items) => {
            if items.len() <= arity && position < items.len() {
                Some(&items[position])
            } else {
                None
            }
        },
        _ => None,
    }
}

/// The string a field of a record holds.
fn read_text<'a>(record: &'a Json, name: &str, position: usize, arity: usize) -> (found: Option<
    &'a String,
>)
    ensures
        match found {
            Some(text) => text_field(record@, name@, position as int, arity as int) == Some(text@),
            None => text_field(record@, name@, position as int, arity as int) is None,
        },
{
    match read_field(record, name, position, arity) {
        Some(Json::Text(text)) => Some(text),
        _ => None,
    }
}

/// The entry index a key object becomes valid from: zero where it is left out, and unreadable
/// where it is not an unsigned integer.
pub open spec fn valid_from(key: JsonTree) -> Option<u64> {
    match field(key, "valid_from_index"@, 2, 3) {
        None => Some(0),
        Some(JsonTree::Number { unsigned, .. }) => unsigned,
        Some(_) => None,
    }
}

/// The key object a document declares.
pub open spec fn key_spec_of(key: JsonTree) -> Option<KeySpecView> {
    match (
        text_field(key, "key_id"@, 0, 3),
        text_field(key, "pubkey"@, 1, 3),
        valid_from(key),
    ) {
        (Some(key_id), Some(pubkey), Some(valid_from_index)) => Some(
            KeySpecView { key_id, pubkey, valid_from_index },
        ),
        _ => None,
    }
}

/// The key object a document declares, where it resolves.
pub open spec fn key_of(key: JsonTree) -> Option<KeyView> {
    match key_spec_of(key) {
        Some(spec) => match resolved_key(spec) {
            Ok(resolved) => Some(resolved),
            Err(_) => None,
        },
        None => None,
    }
}

/// The keys an array declares, where every one of them resolves.
pub open spec fn keys_of(keys: JsonTree) -> Option<Seq<KeyView>> {
    match keys {
        JsonTree::Array(items) => if forall|i: int|
            0 <= i < items.len() ==> key_of(#[trigger] items[i]) is Some {
            Some(Seq::new(items.len(), |i: int| key_of(items[i])->0))
        } else {
            None
        },
        _ => None,
    }
}

/// Read a key object.
pub fn decode_key_spec(key: &Json) -> (spec: Option<KeyObjectSpec>)
    ensures
        match spec {
            Some(s) => key_spec_of(key@) == Some(s@),
            None => key_spec_of(key@) is None,
        },
{
    let key_id: &String = match read_text(key, "key_id", 0, 3) {
        Some(text) => text,
        None => {
            return None;
        },
    };
    let pubkey: &String = match read_text(key, "pubkey", 1, 3) {
        Some(text) => text,
        None => {
            return None;
        },
    };
    let valid_from_index: u64 = match read_field(key, "valid_from_index", 2, 3) {
        None => 0,
        Some(Json::Number { unsigned: Some(value), .. }) => *value,
        Some(_) => {
            return None;
        },
    };
    Some(KeyObjectSpec { key_id: key_id.clone(), pubkey: pubkey.clone(), valid_from_index })
}

/// Read and resolve a key object.
pub fn decode_key(key: &Json) -> (resolved: Option<ResolvedKeyObject>)
    ensures
        match resolved {
            Some(k) => key_of(key@) == Some(k@),
            None => key_of(key@) is None,
        },
{
    match decode_key_spec(key) {
        Some(spec) => match ResolvedKeyObject::resolve(&spec) {
            Ok(resolved) => Some(resolved),
            Err(_) => None,
        },
        None => None,
    }
}

/// Read and resolve an array of key objects.
pub fn decode_keys(keys: &Json) -> (resolved: Option<Vec<ResolvedKeyObject>>)
    ensures
        match resolved {
            Some(list) => keys_of(keys@) == Some(crate::config::keys_view(list@)),
            None => keys_of(keys@) is None,
        },
{
    match keys {
        Json::Array(items) => {
            let ghost trees = keys@->Array_0;
            let mut list: Vec<ResolvedKeyObject> = Vec::new();
            let mut i: usize = 0;
            while i < items.len()
                invariant
                    i <= items@.len(),
                    *keys == Json::Array(*items),
                    trees == keys@->Array_0,
                    list@.len() == i,
                    forall|j: int|
                        0 <= j < i ==> key_of(#[trigger] trees[j]) == Some(list@[j]@),
                decreases items.len() - i,
            {
                assert(trees[i as int] == items@[i as int]@);
                match decode_key(&items[i]) {
                    Some(key) => list.push(key),
                    None => {
                        return None;
                    },
                }
                i += 1;
            }
            assert(keys_of(keys@)->0 =~= crate::config::keys_view(list@));
            Some(list)
        },
        _ => None,
    }
}

/// What a manifest's `log` block declares.
pub ghost struct LogView {
    pub log_id: Seq<char>,
    pub checkpoint_cadence: Seq<char>,
    pub cadence_epoch: Seq<char>,
    pub witness_grace_period: Seq<char>,
    pub keys: Seq<KeyView>,
}

/// Whether a document declares an adaptor: an id and a hash.
pub open spec fn is_adaptor(adaptor: JsonTree) -> bool {
    text_field(adaptor, "id"@, 0, 2) is Some && text_field(adaptor, "hash"@, 1, 2) is Some
}

/// The `log` block a document declares: every member present, every key resolved.
pub open spec fn log_of(log: JsonTree) -> Option<LogView> {
    match (
        text_field(log, "log_id"@, 0, 7),
        text_field(log, "operator"@, 1, 7),
        field(log, "adaptor"@, 2, 7),
        text_field(log, "checkpoint_cadence"@, 3, 7),
        text_field(log, "cadence_epoch"@, 4, 7),
        text_field(log, "witness_grace_period"@, 5, 7),
        field(log, "keys"@, 6, 7),
    ) {
        (
            Some(log_id),
            Some(_),
            Some(adaptor),
            Some(checkpoint_cadence),
            Some(cadence_epoch),
            Some(witness_grace_period),
            Some(listed),
        ) => match keys_of(listed) {
            Some(keys) => if is_adaptor(adaptor) {
                Some(
                    LogView {
                        log_id,
                        checkpoint_cadence,
                        cadence_epoch,
                        witness_grace_period,
                        keys,
                    },
                )
            } else {
                None
            },
            None => None,
        },
        _ => None,
    }
}

/// A manifest's `log` block.
pub struct LogBlock {
    /// The log it governs.
    pub log_id: String,
    /// The cadence, as written.
    pub checkpoint_cadence: String,
    /// The epoch, as written.
    pub cadence_epoch: String,
    /// The grace period, as written.
    pub witness_grace_period: String,
    /// The checkpoint-signing keys.
    pub keys: Vec<ResolvedKeyObject>,
}

impl View for LogBlock {
    type V = LogView;

    open spec fn view(&self) -> LogView {
        LogView {
            log_id: self.log_id@,
            checkpoint_cadence: self.checkpoint_cadence@,
            cadence_epoch: self.cadence_epoch@,
            witness_grace_period: self.witness_grace_period@,
            keys: crate::config::keys_view(self.keys@),
        }
    }
}

/// Read a `log` block.
pub fn decode_log(log: &Json) -> (block: Option<LogBlock>)
    ensures
        match block {
            Some(b) => log_of(log@) == Some(b@),
            None => log_of(log@) is None,
        },
{
    let log_id: &String = match read_text(log, "log_id", 0, 7) {
        Some(text) => text,
        None => {
            return None;
        },
    };
    if read_text(log, "operator", 1, 7).is_none() {
        return None;
    }
    let adaptor: &Json = match read_field(log, "adaptor", 2, 7) {
        Some(json) => json,
        None => {
            return None;
        },
    };
    let checkpoint_cadence: &String = match read_text(log, "checkpoint_cadence", 3, 7) {
        Some(text) => text,
        None => {
            return None;
        },
    };
    let cadence_epoch: &String = match read_text(log, "cadence_epoch", 4, 7) {
        Some(text) => text,
        None => {
            return None;
        },
    };
    let witness_grace_period: &String = match read_text(log, "witness_grace_period", 5, 7) {
        Some(text) => text,
        None => {
            return None;
        },
    };
    let listed: &Json = match read_field(log, "keys", 6, 7) {
        Some(json) => json,
        None => {
            return None;
        },
    };
    let keys: Vec<ResolvedKeyObject> = match decode_keys(listed) {
        Some(keys) => keys,
        None => {
            return None;
        },
    };
    if read_text(adaptor, "id", 0, 2).is_none() || read_text(adaptor, "hash", 1, 2).is_none() {
        return None;
    }
    Some(
        LogBlock {
            log_id: log_id.clone(),
            checkpoint_cadence: checkpoint_cadence.clone(),
            cadence_epoch: cadence_epoch.clone(),
            witness_grace_period: witness_grace_period.clone(),
            keys,
        },
    )
}

/// A witness's keys, each under the witness's identity.
pub open spec fn under_witness(witness_id: Seq<char>, keys: Seq<KeyView>) -> Seq<
    (Seq<char>, KeyView),
> {
    Seq::new(keys.len(), |i: int| (witness_id, keys[i]))
}

/// The keys one witness block declares.
pub open spec fn witness_of(block: JsonTree) -> Option<Seq<(Seq<char>, KeyView)>> {
    match (text_field(block, "witness_id"@, 0, 2), field(block, "keys"@, 1, 2)) {
        (Some(witness_id), Some(listed)) => match keys_of(listed) {
            Some(keys) => Some(under_witness(witness_id, keys)),
            None => None,
        },
        _ => None,
    }
}

/// The keys a list of witness blocks declares, where every one of them resolves.
pub open spec fn witnesses_of(blocks: Seq<JsonTree>) -> Option<Seq<(Seq<char>, KeyView)>>
    decreases blocks.len(),
{
    if blocks.len() == 0 {
        Some(Seq::empty())
    } else {
        match (witnesses_of(blocks.drop_last()), witness_of(blocks.last())) {
            (Some(before), Some(keys)) => Some(before + keys),
            _ => None,
        }
    }
}

/// The witness keys a manifest declares: none where it leaves the member out.
pub open spec fn witness_keys_of(payload: JsonTree) -> Option<Seq<(Seq<char>, KeyView)>> {
    match payload.member("witnesses"@) {
        None => Some(Seq::empty()),
        Some(JsonTree::Array(blocks)) => witnesses_of(blocks),
        Some(_) => None,
    }
}

/// A list of witness keys by its view.
pub open spec fn witness_view(keys: Seq<(String, ResolvedKeyObject)>) -> Seq<(Seq<char>, KeyView)> {
    Seq::new(keys.len(), |i: int| (keys[i].0@, keys[i].1@))
}

/// One block that does not resolve leaves the whole list unresolved.
proof fn one_bad_witness_spoils_all(blocks: Seq<JsonTree>, count: int)
    requires
        0 <= count <= blocks.len(),
        witnesses_of(blocks.take(count)) is None,
    ensures
        witnesses_of(blocks) is None,
    decreases blocks.len(),
{
    if count < blocks.len() {
        assert(blocks.drop_last().take(count) =~= blocks.take(count));
        one_bad_witness_spoils_all(blocks.drop_last(), count);
    } else {
        assert(blocks.take(count) =~= blocks);
    }
}

/// Read one witness block.
fn decode_witness(block: &Json) -> (keys: Option<Vec<(String, ResolvedKeyObject)>>)
    ensures
        match keys {
            Some(list) => witness_of(block@) == Some(witness_view(list@)),
            None => witness_of(block@) is None,
        },
{
    let witness_id: &String = match read_text(block, "witness_id", 0, 2) {
        Some(text) => text,
        None => {
            return None;
        },
    };
    let listed: &Json = match read_field(block, "keys", 1, 2) {
        Some(json) => json,
        None => {
            return None;
        },
    };
    let resolved: Vec<ResolvedKeyObject> = match decode_keys(listed) {
        Some(resolved) => resolved,
        None => {
            return None;
        },
    };
    let mut list: Vec<(String, ResolvedKeyObject)> = Vec::new();
    let mut i: usize = 0;
    while i < resolved.len()
        invariant
            i <= resolved@.len(),
            list@.len() == i,
            forall|j: int|
                0 <= j < i ==> (#[trigger] list@[j]).0@ == witness_id@ && list@[j].1@
                    == resolved@[j]@,
        decreases resolved.len() - i,
    {
        list.push((witness_id.clone(), resolved[i].clone()));
        i += 1;
    }
    assert(witness_view(list@) =~= under_witness(
        witness_id@,
        crate::config::keys_view(resolved@),
    ));
    Some(list)
}

/// Read the witness keys of a manifest.
pub fn decode_witness_keys(payload: &Json) -> (keys: Option<Vec<(String, ResolvedKeyObject)>>)
    ensures
        match keys {
            Some(list) => witness_keys_of(payload@) == Some(witness_view(list@)),
            None => witness_keys_of(payload@) is None,
        },
{
    let mut list: Vec<(String, ResolvedKeyObject)> = Vec::new();
    assert(witness_view(list@) =~= Seq::<(Seq<char>, KeyView)>::empty());
    match payload.member("witnesses") {
        None => Some(list),
        Some(Json::Array(blocks)) => {
            let ghost trees = Json::Array(*blocks)@->Array_0;
            let mut i: usize = 0;
            assert(trees.take(0) =~= Seq::<JsonTree>::empty());
            while i < blocks.len()
                invariant
                    i <= blocks@.len(),
                    trees == Json::Array(*blocks)@->Array_0,
                    witness_keys_of(payload@) == witnesses_of(trees),
                    witnesses_of(trees.take(i as int)) == Some(witness_view(list@)),
                decreases blocks.len() - i,
            {
                proof {
                    assert(trees[i as int] == blocks@[i as int]@);
                    assert(trees.take(i + 1).drop_last() =~= trees.take(i as int));
                    assert(trees.take(i + 1).last() == trees[i as int]);
                }
                match decode_witness(&blocks[i]) {
                    Some(keys) => {
                        let mut more: Vec<(String, ResolvedKeyObject)> = keys;
                        let ghost before = witness_view(list@);
                        let ghost added = witness_view(more@);
                        list.append(&mut more);
                        assert(witness_view(list@) =~= before + added);
                    },
                    None => {
                        proof {
                            one_bad_witness_spoils_all(trees, i + 1);
                        }
                        return None;
                    },
                }
                i += 1;
            }
            assert(trees.take(i as int) =~= trees);
            Some(list)
        },
        Some(_) => None,
    }
}

// ---- laws ----

/// A key object is read from an object with its members or from an array of its fields in order:
/// the id and the public key are strings, and the first index is an unsigned integer that may be
/// left out and is then zero. Nothing else is read as one.
pub proof fn a_key_object_is_read_as_it_is_written(key: JsonTree, spec: KeySpecView)
    ensures
        key_spec_of(key) == Some(spec) <==> match key {
            JsonTree::Object(_) => {
                &&& key.member("key_id"@) == Some(JsonTree::Text(spec.key_id))
                &&& key.member("pubkey"@) == Some(JsonTree::Text(spec.pubkey))
                &&& match key.member("valid_from_index"@) {
                    None => spec.valid_from_index == 0,
                    Some(JsonTree::Number { unsigned, .. }) => unsigned == Some(
                        spec.valid_from_index,
                    ),
                    Some(_) => false,
                }
            },
            JsonTree::Array(items) => {
                &&& 2 <= items.len() <= 3
                &&& items[0] == JsonTree::Text(spec.key_id)
                &&& items[1] == JsonTree::Text(spec.pubkey)
                &&& items.len() == 2 ==> spec.valid_from_index == 0
                &&& items.len() == 3 ==> (items[2] matches JsonTree::Number { unsigned, .. }
                    && unsigned == Some(spec.valid_from_index))
            },
            _ => false,
        },
{
}

/// A list of keys is read from an array exactly where every item is a key object that resolves,
/// each in its own place.
pub proof fn a_key_list_is_read_item_by_item(document: JsonTree)
    ensures
        match document {
            JsonTree::Array(items) => match keys_of(document) {
                Some(keys) => keys.len() == items.len() && forall|i: int|
                    0 <= i < items.len() ==> key_spec_of(#[trigger] items[i]) is Some
                        && resolved_key(key_spec_of(items[i])->0) == Ok::<
                        KeyView,
                        crate::error::Fault,
                    >(keys[i]),
                None => exists|i: int|
                    0 <= i < items.len() && (key_spec_of(#[trigger] items[i]) is None
                        || resolved_key(key_spec_of(items[i])->0) is Err),
            },
            _ => keys_of(document) is None,
        },
{
    if let JsonTree::Array(items) = document {
        if keys_of(document) is None {
            let i = choose|i: int| 0 <= i < items.len() && key_of(#[trigger] items[i]) is None;
            assert(key_spec_of(items[i]) is None || resolved_key(key_spec_of(items[i])->0) is Err);
        } else {
            assert forall|i: int| 0 <= i < items.len() implies key_spec_of(
                #[trigger] items[i],
            ) is Some && resolved_key(key_spec_of(items[i])->0) == Ok::<
                KeyView,
                crate::error::Fault,
            >(keys_of(document)->0[i]) by {
                assert(key_of(items[i]) is Some);
            }
        }
    }
}

/// The `log` block is read from an object with its members or from an array of its fields in
/// order: every one of them is there, the texts are strings, the adaptor has an id and a hash,
/// and every key resolves. Each member is read for what it is named for.
pub proof fn a_log_block_is_read_as_it_is_written(block: JsonTree, log: LogView)
    ensures
        log_of(block) == Some(log) <==> match block {
            JsonTree::Object(_) => {
                &&& block.member("log_id"@) == Some(JsonTree::Text(log.log_id))
                &&& block.member("operator"@) matches Some(JsonTree::Text(_))
                &&& block.member("adaptor"@) matches Some(adaptor) && is_adaptor(adaptor)
                &&& block.member("checkpoint_cadence"@) == Some(
                    JsonTree::Text(log.checkpoint_cadence),
                )
                &&& block.member("cadence_epoch"@) == Some(JsonTree::Text(log.cadence_epoch))
                &&& block.member("witness_grace_period"@) == Some(
                    JsonTree::Text(log.witness_grace_period),
                )
                &&& block.member("keys"@) matches Some(listed) && keys_of(listed) == Some(log.keys)
            },
            JsonTree::Array(items) => {
                &&& items.len() == 7
                &&& items[0] == JsonTree::Text(log.log_id)
                &&& items[1] is Text
                &&& is_adaptor(items[2])
                &&& items[3] == JsonTree::Text(log.checkpoint_cadence)
                &&& items[4] == JsonTree::Text(log.cadence_epoch)
                &&& items[5] == JsonTree::Text(log.witness_grace_period)
                &&& keys_of(items[6]) == Some(log.keys)
            },
            _ => false,
        },
{
}

/// An adaptor is an id and a hash, both strings, as members of those names or as the two items of
/// an array.
pub proof fn an_adaptor_has_an_id_and_a_hash(adaptor: JsonTree)
    ensures
        is_adaptor(adaptor) <==> match adaptor {
            JsonTree::Object(_) => adaptor.member("id"@) matches Some(JsonTree::Text(_))
                && adaptor.member("hash"@) matches Some(JsonTree::Text(_)),
            JsonTree::Array(items) => items.len() == 2 && items[0] is Text && items[1] is Text,
            _ => false,
        },
{
}

/// Whether a witness block declares a key: it names the witness and lists the key.
pub open spec fn block_declares(block: JsonTree, key: (Seq<char>, KeyView)) -> bool {
    &&& match block {
        JsonTree::Object(_) => block.member("witness_id"@) == Some(JsonTree::Text(key.0))
            && block.member("keys"@) is Some,
        JsonTree::Array(items) => items.len() == 2 && items[0] == JsonTree::Text(key.0),
        _ => false,
    }
    &&& keys_of(
        match block {
            JsonTree::Array(items) => items[1],
            _ => block.member("keys"@)->0,
        },
    ) matches Some(keys)
    &&& keys.contains(key.1)
}

/// One witness block declares each of its keys under its witness and nothing else.
proof fn a_block_is_read_whole(block: JsonTree, key: (Seq<char>, KeyView))
    ensures
        witness_of(block) matches Some(list) ==> (list.contains(key) <==> block_declares(
            block,
            key,
        )),
{
    if let Some(list) = witness_of(block) {
        let listed = field(block, "keys"@, 1, 2)->0;
        let keys = keys_of(listed)->0;
        if list.contains(key) {
            let i = choose|i: int| 0 <= i < list.len() && list[i] == key;
            assert(keys[i] == key.1);
        }
        if block_declares(block, key) {
            let i = choose|i: int| 0 <= i < keys.len() && keys[i] == key.1;
            assert(list[i] == key);
        }
    }
}

/// The blocks of a list are read whole.
proof fn blocks_are_read_whole(blocks: Seq<JsonTree>, key: (Seq<char>, KeyView))
    ensures
        match witnesses_of(blocks) {
            Some(list) => list.contains(key) <==> exists|b: int|
                0 <= b < blocks.len() && block_declares(#[trigger] blocks[b], key),
            None => exists|b: int| 0 <= b < blocks.len() && witness_of(#[trigger] blocks[b]) is None,
        },
        witnesses_of(blocks) is Some ==> forall|b: int|
            0 <= b < blocks.len() ==> witness_of(#[trigger] blocks[b]) is Some,
    decreases blocks.len(),
{
    if blocks.len() > 0 {
        let rest = blocks.drop_last();
        let at = blocks.len() - 1;
        blocks_are_read_whole(rest, key);
        a_block_is_read_whole(blocks.last(), key);
        assert forall|b: int| 0 <= b < rest.len() implies #[trigger] blocks[b] == rest[b] by {}
        match (witnesses_of(rest), witness_of(blocks.last())) {
            (Some(before), Some(keys)) => {
                let list = before + keys;
                if before.contains(key) {
                    let i = choose|i: int| 0 <= i < before.len() && before[i] == key;
                    assert(list[i] == key);
                    let b = choose|b: int|
                        0 <= b < rest.len() && block_declares(#[trigger] rest[b], key);
                    assert(block_declares(blocks[b], key));
                }
                if keys.contains(key) {
                    let i = choose|i: int| 0 <= i < keys.len() && keys[i] == key;
                    assert(list[i + before.len()] == key);
                    assert(block_declares(blocks[at], key));
                }
                if list.contains(key) {
                    let i = choose|i: int| 0 <= i < list.len() && list[i] == key;
                    if i < before.len() {
                        assert(before[i] == key);
                    } else {
                        assert(keys[i - before.len()] == key);
                    }
                }
                if exists|b: int| 0 <= b < blocks.len() && block_declares(#[trigger] blocks[b], key) {
                    let b = choose|b: int|
                        0 <= b < blocks.len() && block_declares(#[trigger] blocks[b], key);
                    if b < at {
                        assert(block_declares(rest[b], key));
                    }
                }
            },
            (None, _) => {
                let b = choose|b: int|
                    0 <= b < rest.len() && witness_of(#[trigger] rest[b]) is None;
                assert(witness_of(blocks[b]) is None);
            },
            _ => {
                assert(witness_of(blocks[at]) is None);
            },
        }
    }
}

/// The witness keys of a manifest are exactly those its witness blocks declare, each under its own
/// witness: none where the member is left out, and unreadable where it is no array or one of its
/// blocks is malformed.
pub proof fn witness_keys_are_those_the_blocks_declare(
    payload: JsonTree,
    key: (Seq<char>, KeyView),
)
    ensures
        match payload.member("witnesses"@) {
            None => witness_keys_of(payload) == Some(Seq::<(Seq<char>, KeyView)>::empty()),
            Some(JsonTree::Array(blocks)) => match witness_keys_of(payload) {
                Some(list) => list.contains(key) <==> exists|b: int|
                    0 <= b < blocks.len() && block_declares(#[trigger] blocks[b], key),
                None => exists|b: int|
                    0 <= b < blocks.len() && !is_witness_block(#[trigger] blocks[b]),
            },
            Some(_) => witness_keys_of(payload) is None,
        },
        witness_keys_of(payload) is Some ==> (payload.member("witnesses"@) matches Some(
            JsonTree::Array(blocks),
        ) ==> forall|b: int| 0 <= b < blocks.len() ==> is_witness_block(#[trigger] blocks[b])),
{
    if let Some(JsonTree::Array(blocks)) = payload.member("witnesses"@) {
        blocks_are_read_whole(blocks, key);
        if witness_keys_of(payload) is None {
            let b = choose|b: int|
                0 <= b < blocks.len() && witness_of(#[trigger] blocks[b]) is None;
            assert(!is_witness_block(blocks[b]));
        } else {
            assert forall|b: int| 0 <= b < blocks.len() implies is_witness_block(
                #[trigger] blocks[b],
            ) by {
                assert(witness_of(blocks[b]) is Some);
            }
        }
    }
}

/// Whether a document is a witness block: a witness id and a list of keys that resolve, as members
/// of those names or as the two items of an array.
pub open spec fn is_witness_block(block: JsonTree) -> bool {
    match block {
        JsonTree::Object(_) => block.member("witness_id"@) matches Some(JsonTree::Text(_))
            && block.member("keys"@) matches Some(listed) && keys_of(listed) is Some,
        JsonTree::Array(items) => items.len() == 2 && items[0] is Text && keys_of(items[1]) is Some,
        _ => false,
    }
}

} // verus!
