//! Governance: a verified chain of `manifest` and `key` statements, rooted at a configured
//! genesis anchor.
//!
//! A statement counts only once its producer signature verifies under the keys in force; a
//! later manifest must also name the version it succeeds and keep the cadence epoch. A
//! statement that fails is skipped, with one exception: an authentic statement of another
//! revision is refused by name before anything else of it is read.

use vstd::prelude::*;

use crate::config::{keys_view, resolved_key, Config, ConfigView, KeyView, ResolvedKeyObject};
use crate::duration::{
    cadence_nanos, duration_nanos, parse_checkpoint_cadence_nanos, parse_iso8601_duration_nanos,
};
use crate::error::{gives, refuses, Fault, MirrorError, MirrorResult};
use crate::json::{json_of, json_parsed, json_tree, parse_value, Json, JsonTree};
use crate::primitives::{ahl_version, envelope_entry_id, family_text, jcs_octets, sha256};
use crate::statement::{
    decode_key_spec, decode_keys, decode_log, decode_witness_keys, key_spec_of, keys_of, log_of,
    witness_keys_of, witness_view, LogBlock,
};
use crate::text::{bytes_view, same_text};
use crate::timestamp::{epoch_nanos, parse_rfc3339_nanos};

verus! {

/// A verified governance snapshot: the keys and the cadence in force.
#[derive(Debug)]
pub struct GovernanceState {
    producer_keys: Vec<ResolvedKeyObject>,
    log_keys: Vec<ResolvedKeyObject>,
    witness_keys: Vec<(String, ResolvedKeyObject)>,
    cadence_nanos: u64,
    cadence_epoch_nanos: u64,
    governing_manifest_entry_index: u64,
    governing_manifest_entry_id: String,
    genesis_entry_index: u64,
}

/// What a governance snapshot holds.
pub ghost struct GovernanceView {
    /// The producer keys by key id.
    pub producer_keys: Map<Seq<char>, KeyView>,
    /// The checkpoint-signing keys, as listed.
    pub log_keys: Seq<KeyView>,
    /// The witness keys, as listed, each with its witness's identity.
    pub witness_keys: Seq<(Seq<char>, KeyView)>,
    pub cadence_nanos: u64,
    pub cadence_epoch_nanos: u64,
    pub governing_manifest_entry_index: u64,
    pub governing_manifest_entry_id: Seq<char>,
    pub genesis_entry_index: u64,
}

/// Keys by key id, the last of several with one id.
pub open spec fn key_map(keys: Seq<KeyView>) -> Map<Seq<char>, KeyView>
    decreases keys.len(),
{
    if keys.len() == 0 {
        Map::empty()
    } else {
        key_map(keys.drop_last()).insert(keys.last().key_id, keys.last())
    }
}

/// The public keys that are valid at an entry index, by key id.
pub open spec fn active_keys(keys: Map<Seq<char>, KeyView>, at_index: u64) -> Map<
    Seq<char>,
    Seq<char>,
> {
    Map::new(
        |id: Seq<char>| keys.contains_key(id) && keys[id].valid_from_index <= at_index,
        |id: Seq<char>| keys[id].pubkey,
    )
}

/// The first key of a list from `from` on with a key id.
pub open spec fn first_key(keys: Seq<KeyView>, key_id: Seq<char>, from: int) -> Option<KeyView>
    decreases keys.len() - from,
{
    if from < 0 || from >= keys.len() {
        None
    } else if keys[from].key_id == key_id {
        Some(keys[from])
    } else {
        first_key(keys, key_id, from + 1)
    }
}

/// What identifies a checkpoint-signing key object.
pub open spec fn log_object(key: KeyView) -> (Seq<char>, Seq<char>, u64) {
    (key.key_id, key.pubkey, key.valid_from_index)
}

/// What identifies a witness key object.
pub open spec fn witness_object(key: (Seq<char>, KeyView)) -> (
    Seq<char>,
    (Seq<char>, Seq<char>, u64),
) {
    (key.0, log_object(key.1))
}

/// The set of checkpoint-signing key objects a list declares.
pub open spec fn log_key_set(keys: Seq<KeyView>) -> Set<(Seq<char>, Seq<char>, u64)> {
    Set::new(
        |object: (Seq<char>, Seq<char>, u64)|
            exists|i: int| 0 <= i < keys.len() && #[trigger] log_object(keys[i]) == object,
    )
}

/// The set of witness key objects a list declares.
pub open spec fn witness_key_set(keys: Seq<(Seq<char>, KeyView)>) -> Set<
    (Seq<char>, (Seq<char>, Seq<char>, u64)),
> {
    Set::new(
        |object: (Seq<char>, (Seq<char>, Seq<char>, u64))|
            exists|i: int| 0 <= i < keys.len() && #[trigger] witness_object(keys[i]) == object,
    )
}

impl GovernanceView {
    /// The checkpoint-signing key with a key id, for a checkpoint of a tree size: the first
    /// listed, where it is valid by then.
    pub open spec fn log_key(self, key_id: Seq<char>, tree_size: u64) -> Result<Seq<u8>, Fault> {
        match first_key(self.log_keys, key_id, 0) {
            None => Err(Fault::UnknownSigningKey { key_id }),
            Some(key) => if tree_size < key.valid_from_index {
                Err(
                    Fault::KeyNotYetActive {
                        key_id,
                        valid_from_index: key.valid_from_index,
                        tree_size,
                    },
                )
            } else {
                Ok(key.verifying_key)
            },
        }
    }

    /// Whether this version rotates the governance keys of `predecessor`: its set of
    /// checkpoint-signing key objects or its set of witness key objects differs.
    pub open spec fn rotates(self, predecessor: GovernanceView) -> bool {
        log_key_set(self.log_keys) != log_key_set(predecessor.log_keys) || witness_key_set(
            self.witness_keys,
        ) != witness_key_set(predecessor.witness_keys)
    }
}

impl View for GovernanceState {
    type V = GovernanceView;

    closed spec fn view(&self) -> GovernanceView {
        GovernanceView {
            producer_keys: key_map(keys_view(self.producer_keys@)),
            log_keys: keys_view(self.log_keys@),
            witness_keys: witness_view(self.witness_keys@),
            cadence_nanos: self.cadence_nanos,
            cadence_epoch_nanos: self.cadence_epoch_nanos,
            governing_manifest_entry_index: self.governing_manifest_entry_index,
            governing_manifest_entry_id: self.governing_manifest_entry_id@,
            genesis_entry_index: self.genesis_entry_index,
        }
    }
}

/// A list of resolved keys, owned.
fn copy_keys(keys: &Vec<ResolvedKeyObject>) -> (copy: Vec<ResolvedKeyObject>)
    ensures
        keys_view(copy@) == keys_view(keys@),
{
    let mut copy: Vec<ResolvedKeyObject> = Vec::new();
    let mut i: usize = 0;
    while i < keys.len()
        invariant
            i <= keys@.len(),
            copy@.len() == i,
            forall|j: int| 0 <= j < i ==> (#[trigger] copy@[j])@ == keys@[j]@,
        decreases keys.len() - i,
    {
        copy.push(keys[i].clone());
        i += 1;
    }
    assert(keys_view(copy@) =~= keys_view(keys@));
    copy
}

/// A list of resolved keys, last first.
fn reversed_keys(keys: &Vec<ResolvedKeyObject>) -> (reversed: Vec<ResolvedKeyObject>)
    ensures
        keys_view(reversed@) == keys_view(keys@).reverse(),
{
    let mut reversed: Vec<ResolvedKeyObject> = Vec::new();
    let mut i: usize = keys.len();
    while i > 0
        invariant
            i <= keys@.len(),
            reversed@.len() == keys@.len() - i,
            forall|j: int|
                0 <= j < reversed@.len() ==> (#[trigger] reversed@[j])@ == keys@[keys@.len() - 1
                    - j]@,
        decreases i,
    {
        i -= 1;
        reversed.push(keys[i].clone());
    }
    assert(keys_view(reversed@) =~= keys_view(keys@).reverse());
    reversed
}

/// A list of witness keys, owned.
fn copy_witness_keys(keys: &Vec<(String, ResolvedKeyObject)>) -> (copy: Vec<
    (String, ResolvedKeyObject),
>)
    ensures
        witness_view(copy@) == witness_view(keys@),
{
    let mut copy: Vec<(String, ResolvedKeyObject)> = Vec::new();
    let mut i: usize = 0;
    while i < keys.len()
        invariant
            i <= keys@.len(),
            copy@.len() == i,
            forall|j: int|
                0 <= j < i ==> (#[trigger] copy@[j]).0@ == keys@[j].0@ && copy@[j].1@
                    == keys@[j].1@,
        decreases keys.len() - i,
    {
        copy.push((keys[i].0.clone(), keys[i].1.clone()));
        i += 1;
    }
    assert(witness_view(copy@) =~= witness_view(keys@));
    copy
}

impl Clone for GovernanceState {
    fn clone(&self) -> (copy: Self)
        ensures
            copy@ == self@,
    {
        GovernanceState {
            producer_keys: copy_keys(&self.producer_keys),
            log_keys: copy_keys(&self.log_keys),
            witness_keys: copy_witness_keys(&self.witness_keys),
            cadence_nanos: self.cadence_nanos,
            cadence_epoch_nanos: self.cadence_epoch_nanos,
            governing_manifest_entry_index: self.governing_manifest_entry_index,
            governing_manifest_entry_id: self.governing_manifest_entry_id.clone(),
            genesis_entry_index: self.genesis_entry_index,
        }
    }
}

/// Whether two key objects are one.
fn same_log_object(a: &ResolvedKeyObject, b: &ResolvedKeyObject) -> (same: bool)
    ensures
        same == (log_object(a@) == log_object(b@)),
{
    same_text(a.key_id.as_str(), b.key_id.as_str()) && same_text(
        a.pubkey.as_str(),
        b.pubkey.as_str(),
    ) && a.valid_from_index == b.valid_from_index
}

/// Whether every checkpoint-signing key object of one list is in another.
fn log_keys_within(keys: &Vec<ResolvedKeyObject>, others: &Vec<ResolvedKeyObject>) -> (within: bool)
    ensures
        within == log_key_set(keys_view(keys@)).subset_of(log_key_set(keys_view(others@))),
{
    let ghost inner = keys_view(keys@);
    let ghost outer = keys_view(others@);
    let mut i: usize = 0;
    while i < keys.len()
        invariant
            i <= keys@.len(),
            inner == keys_view(keys@),
            outer == keys_view(others@),
            forall|j: int|
                0 <= j < i ==> log_key_set(outer).contains(#[trigger] log_object(inner[j])),
        decreases keys.len() - i,
    {
        let mut found: bool = false;
        let mut k: usize = 0;
        while k < others.len()
            invariant
                i < keys@.len(),
                k <= others@.len(),
                inner == keys_view(keys@),
                outer == keys_view(others@),
                found == exists|m: int|
                    0 <= m < k && #[trigger] log_object(outer[m]) == log_object(inner[i as int]),
            decreases others.len() - k,
        {
            if same_log_object(&keys[i], &others[k]) {
                assert(log_object(outer[k as int]) == log_object(inner[i as int]));
                found = true;
            }
            k += 1;
        }
        if !found {
            proof {
                assert(log_key_set(inner).contains(log_object(inner[i as int])));
                assert(!log_key_set(outer).contains(log_object(inner[i as int])));
            }
            return false;
        }
        i += 1;
    }
    true
}

/// Whether every witness key object of one list is in another.
fn witness_keys_within(
    keys: &Vec<(String, ResolvedKeyObject)>,
    others: &Vec<(String, ResolvedKeyObject)>,
) -> (within: bool)
    ensures
        within == witness_key_set(witness_view(keys@)).subset_of(
            witness_key_set(witness_view(others@)),
        ),
{
    let ghost inner = witness_view(keys@);
    let ghost outer = witness_view(others@);
    let mut i: usize = 0;
    while i < keys.len()
        invariant
            i <= keys@.len(),
            inner == witness_view(keys@),
            outer == witness_view(others@),
            forall|j: int|
                0 <= j < i ==> witness_key_set(outer).contains(#[trigger] witness_object(inner[j])),
        decreases keys.len() - i,
    {
        let mut found: bool = false;
        let mut k: usize = 0;
        while k < others.len()
            invariant
                i < keys@.len(),
                k <= others@.len(),
                inner == witness_view(keys@),
                outer == witness_view(others@),
                found == exists|m: int|
                    0 <= m < k && #[trigger] witness_object(outer[m]) == witness_object(
                        inner[i as int],
                    ),
            decreases others.len() - k,
        {
            if same_text(keys[i].0.as_str(), others[k].0.as_str()) && same_log_object(
                &keys[i].1,
                &others[k].1,
            ) {
                assert(witness_object(outer[k as int]) == witness_object(inner[i as int]));
                found = true;
            }
            k += 1;
        }
        if !found {
            proof {
                assert(witness_key_set(inner).contains(witness_object(inner[i as int])));
                assert(!witness_key_set(outer).contains(witness_object(inner[i as int])));
            }
            return false;
        }
        i += 1;
    }
    true
}

impl GovernanceState {
    /// The checkpoint-signing key with `key_id`, for a checkpoint of `tree_size`.
    pub fn resolve_log_key(&self, key_id: &str, tree_size: u64) -> (key: MirrorResult<[u8; 32]>)
        ensures
            match key {
                Ok(raw) => gives(self@.log_key(key_id@, tree_size), raw@),
                Err(error) => refuses(self@.log_key(key_id@, tree_size), error),
            },
    {
        let ghost listed = keys_view(self.log_keys@);
        let mut i: usize = 0;
        while i < self.log_keys.len()
            invariant
                i <= self.log_keys@.len(),
                listed == keys_view(self.log_keys@),
                listed == self@.log_keys,
                first_key(listed, key_id@, 0) == first_key(listed, key_id@, i as int),
            decreases self.log_keys.len() - i,
        {
            let key: &ResolvedKeyObject = &self.log_keys[i];
            assert(listed[i as int] == key@);
            if same_text(key.key_id.as_str(), key_id) {
                if tree_size < key.valid_from_index {
                    return Err(
                        MirrorError::KeyNotYetActive {
                            key_id: key_id.to_owned(),
                            valid_from_index: key.valid_from_index,
                            tree_size,
                        },
                    );
                }
                return Ok(key.verifying_key);
            }
            i += 1;
        }
        Err(MirrorError::UnknownSigningKey { key_id: key_id.to_owned() })
    }

    /// Whether this version rotates the governance keys of `predecessor`.
    pub fn rotates(&self, predecessor: &Self) -> (rotates: bool)
        ensures
            rotates == self@.rotates(predecessor@),
    {
        let same_log: bool = log_keys_within(&self.log_keys, &predecessor.log_keys)
            && log_keys_within(&predecessor.log_keys, &self.log_keys);
        let same_witnesses: bool = witness_keys_within(
            &self.witness_keys,
            &predecessor.witness_keys,
        ) && witness_keys_within(&predecessor.witness_keys, &self.witness_keys);
        proof {
            let a = log_key_set(self@.log_keys);
            let b = log_key_set(predecessor@.log_keys);
            let c = witness_key_set(self@.witness_keys);
            let d = witness_key_set(predecessor@.witness_keys);
            if same_log {
                assert(a =~= b);
            }
            if same_witnesses {
                assert(c =~= d);
            }
        }
        !same_log || !same_witnesses
    }

    /// The checkpoint cadence in force, in nanoseconds.
    pub fn cadence_nanos(&self) -> (nanos: u64)
        ensures
            nanos == self@.cadence_nanos,
    {
        self.cadence_nanos
    }

    /// The cadence epoch, in Unix nanoseconds.
    pub fn cadence_epoch_nanos(&self) -> (nanos: u64)
        ensures
            nanos == self@.cadence_epoch_nanos,
    {
        self.cadence_epoch_nanos
    }

    /// The entry index of the manifest version in force.
    pub fn governing_manifest_entry_index(&self) -> (index: u64)
        ensures
            index == self@.governing_manifest_entry_index,
    {
        self.governing_manifest_entry_index
    }

    /// The entry index of the verified genesis manifest.
    pub fn genesis_entry_index(&self) -> (index: u64)
        ensures
            index == self@.genesis_entry_index,
    {
        self.genesis_entry_index
    }
}

// ---- reading a manifest ----

/// The governance a manifest's payload declares, where it is complete and well-formed: every
/// key resolves, the log is the configured one, the cadence is positive, the grace period and
/// the epoch are readable, and the epoch is the required one where one is required.
pub open spec fn governance_of(
    payload: JsonTree,
    entry_index: u64,
    entry_id: Seq<char>,
    log_id: Seq<char>,
    genesis_entry_index: u64,
    required_epoch: Option<u64>,
) -> Option<GovernanceView> {
    match (payload.member("keys"@), payload.member("log"@), witness_keys_of(payload)) {
        (Some(producers), Some(block), Some(witness_keys)) => match (
            keys_of(producers),
            log_of(block),
        ) {
            (Some(producer_keys), Some(log)) => match (
                cadence_nanos(log.checkpoint_cadence),
                duration_nanos(log.witness_grace_period),
                epoch_nanos(log.cadence_epoch),
            ) {
                (Ok(cadence), Ok(_), Ok(epoch)) => if log.log_id == log_id && (required_epoch
                    is Some ==> required_epoch == Some(epoch)) {
                    Some(
                        GovernanceView {
                            producer_keys: key_map(producer_keys),
                            log_keys: log.keys,
                            witness_keys,
                            cadence_nanos: cadence as u64,
                            cadence_epoch_nanos: epoch,
                            governing_manifest_entry_index: entry_index,
                            governing_manifest_entry_id: entry_id,
                            genesis_entry_index,
                        },
                    )
                } else {
                    None
                },
                _ => None,
            },
            _ => None,
        },
        _ => None,
    }
}

/// Read the governance a manifest's payload declares.
pub fn parse_governance(
    payload: &Json,
    entry_index: u64,
    entry_id: &str,
    log_id: &str,
    genesis_entry_index: u64,
    required_epoch: Option<u64>,
) -> (state: Option<GovernanceState>)
    ensures
        match state {
            Some(s) => governance_of(
                payload@,
                entry_index,
                entry_id@,
                log_id@,
                genesis_entry_index,
                required_epoch,
            ) == Some(s@),
            None => governance_of(
                payload@,
                entry_index,
                entry_id@,
                log_id@,
                genesis_entry_index,
                required_epoch,
            ) is None,
        },
{
    let producers: &Json = match payload.member("keys") {
        Some(json) => json,
        None => {
            return None;
        },
    };
    let producer_keys: Vec<ResolvedKeyObject> = match decode_keys(producers) {
        Some(keys) => keys,
        None => {
            return None;
        },
    };
    let block: &Json = match payload.member("log") {
        Some(json) => json,
        None => {
            return None;
        },
    };
    let log: LogBlock = match decode_log(block) {
        Some(log) => log,
        None => {
            return None;
        },
    };
    if !same_text(log.log_id.as_str(), log_id) {
        return None;
    }
    let cadence_nanos: u64 = match parse_checkpoint_cadence_nanos(log.checkpoint_cadence.as_str()) {
        Ok(nanos) => nanos,
        Err(_) => {
            return None;
        },
    };
    if parse_iso8601_duration_nanos(log.witness_grace_period.as_str()).is_err() {
        return None;
    }
    let cadence_epoch_nanos: u64 = match parse_rfc3339_nanos(log.cadence_epoch.as_str()) {
        Ok(nanos) => nanos,
        Err(_) => {
            return None;
        },
    };
    if let Some(required) = required_epoch {
        if cadence_epoch_nanos != required {
            return None;
        }
    }
    let witness_keys: Vec<(String, ResolvedKeyObject)> = match decode_witness_keys(payload) {
        Some(keys) => keys,
        None => {
            return None;
        },
    };
    Some(
        GovernanceState {
            producer_keys,
            log_keys: log.keys,
            witness_keys,
            cadence_nanos,
            cadence_epoch_nanos,
            governing_manifest_entry_index: entry_index,
            governing_manifest_entry_id: entry_id.to_owned(),
            genesis_entry_index,
        },
    )
}

/// Why a statement's declared revision is refused, if it is: every revision but the supported
/// one, and none at all.
pub open spec fn version_fault(payload: JsonTree, entry_index: u64) -> Option<Fault> {
    let declared = payload.text_member("ahl_version"@);
    if declared == Some("0.4"@) {
        None
    } else {
        Some(Fault::UnsupportedStatementVersion { entry_index, declared, expected: "0.4"@ })
    }
}

/// Check a statement's declared revision.
fn check_statement_version(payload: &Json, entry_index: u64) -> (checked: MirrorResult<()>)
    ensures
        match checked {
            Ok(_) => version_fault(payload@, entry_index) is None,
            Err(error) => version_fault(payload@, entry_index) == Some(error@),
        },
{
    let expected: &'static str = ahl_version();
    match payload.text_member("ahl_version") {
        Some(declared) => {
            if same_text(declared.as_str(), expected) {
                Ok(())
            } else {
                Err(
                    MirrorError::UnsupportedStatementVersion {
                        entry_index,
                        declared: Some(declared.clone()),
                        expected,
                    },
                )
            }
        },
        None => Err(
            MirrorError::UnsupportedStatementVersion { entry_index, declared: None, expected },
        ),
    }
}

// ---- one step of the chain ----

/// Whether every signature of an envelope verifies, given the public keys that its key ids
/// resolve to; `None` where the envelope or one of those keys is malformed.
pub uninterp spec fn envelope_verdict(
    envelope: JsonTree,
    resolver: Map<Seq<char>, Seq<char>>,
) -> Option<bool>;

/// `ahl_core::verify_envelope`, its resolver answering from the keys valid at an entry index,
/// named by [`envelope_verdict`].
#[verifier::external_body]
fn verify_envelope(
    envelope: &serde_json::Value,
    keys: &Vec<ResolvedKeyObject>,
    at_index: u64,
) -> (verdict: Result<bool, ahl_core::AhlError>)
    ensures
        match verdict {
            Ok(verified) => envelope_verdict(
                json_tree(*envelope),
                active_keys(key_map(keys_view(keys@)), at_index),
            ) == Some(verified),
            Err(_) => envelope_verdict(
                json_tree(*envelope),
                active_keys(key_map(keys_view(keys@)), at_index),
            ) is None,
        },
{
    ahl_core::verify_envelope(envelope, |key_id| active_pubkey(keys, key_id, at_index))
}

/// The public key that is valid at an entry index under a key id, the last of several.
fn active_pubkey(keys: &Vec<ResolvedKeyObject>, key_id: &str, at_index: u64) -> (pubkey: Option<
    String,
>)
    ensures
        match pubkey {
            Some(text) => active_keys(key_map(keys_view(keys@)), at_index).contains_key(key_id@)
                && active_keys(key_map(keys_view(keys@)), at_index)[key_id@] == text@,
            None => !active_keys(key_map(keys_view(keys@)), at_index).contains_key(key_id@),
        },
{
    let ghost listed = keys_view(keys@);
    let mut i: usize = keys.len();
    assert(listed.take(i as int) =~= listed);
    while i > 0
        invariant
            i <= keys@.len(),
            listed == keys_view(keys@),
            key_map(listed).contains_key(key_id@) == key_map(listed.take(i as int)).contains_key(
                key_id@,
            ),
            key_map(listed).contains_key(key_id@) ==> key_map(listed)[key_id@] == key_map(
                listed.take(i as int),
            )[key_id@],
        decreases i,
    {
        proof {
            assert(listed.take(i as int).drop_last() =~= listed.take(i - 1));
            assert(listed.take(i as int).last() == keys@[i - 1]@);
        }
        i -= 1;
        let key: &ResolvedKeyObject = &keys[i];
        if same_text(key.key_id.as_str(), key_id) {
            return if key.valid_from_index <= at_index {
                Some(key.pubkey.clone())
            } else {
                None
            };
        }
    }
    None
}

/// The governance after a manifest whose signatures verified or not. An unverified one changes
/// nothing; a verified one of another revision is refused before anything else of it is read.
/// The first becomes the genesis version unless it names a predecessor; a later one succeeds
/// the version it names, if that is the one in force and the epoch is kept.
pub open spec fn manifest_settled(
    state: Option<GovernanceView>,
    payload: JsonTree,
    entry_id: Seq<char>,
    verified: bool,
    entry_index: u64,
    log_id: Seq<char>,
) -> Result<Option<GovernanceView>, Fault> {
    if !verified {
        Ok(state)
    } else {
        match version_fault(payload, entry_index) {
            Some(fault) => Err(fault),
            None => match state {
                None => if payload.member("predecessor"@) is Some {
                    Ok(None)
                } else {
                    Ok(governance_of(payload, entry_index, entry_id, log_id, entry_index, None))
                },
                Some(current) => if payload.text_member("predecessor"@) == Some(
                    current.governing_manifest_entry_id,
                ) {
                    match governance_of(
                        payload,
                        entry_index,
                        entry_id,
                        log_id,
                        current.genesis_entry_index,
                        Some(current.cadence_epoch_nanos),
                    ) {
                        Some(next) => Ok(Some(next)),
                        None => Ok(state),
                    }
                } else {
                    Ok(state)
                },
            },
        }
    }
}

/// The governance after a `key` statement whose signatures verified or not. Only the producer
/// keys can change: a key that resolves is added, a key id is retired.
pub open spec fn key_settled(
    current: GovernanceView,
    payload: JsonTree,
    verified: bool,
    entry_index: u64,
) -> Result<GovernanceView, Fault> {
    if !verified {
        Ok(current)
    } else {
        match version_fault(payload, entry_index) {
            Some(fault) => Err(fault),
            None => match (payload.text_member("action"@), payload.member("key"@)) {
                (Some(action), Some(object)) => match key_spec_of(object) {
                    Some(spec) => if action == "add"@ {
                        match resolved_key(spec) {
                            Ok(key) => Ok(
                                GovernanceView {
                                    producer_keys: current.producer_keys.insert(key.key_id, key),
                                    ..current
                                },
                            ),
                            Err(_) => Ok(current),
                        }
                    } else if action == "retire"@ {
                        Ok(
                            GovernanceView {
                                producer_keys: current.producer_keys.remove(spec.key_id),
                                ..current
                            },
                        )
                    } else {
                        Ok(current)
                    },
                    None => Ok(current),
                },
                _ => Ok(current),
            },
        }
    }
}

/// An optional governance snapshot by its view.
pub open spec fn state_view(state: Option<GovernanceState>) -> Option<GovernanceView> {
    match state {
        Some(s) => Some(s@),
        None => None,
    }
}

/// Settle a manifest, given whether its signatures verified.
pub fn settle_manifest(
    state: Option<GovernanceState>,
    payload: &Json,
    entry_id: &str,
    verified: bool,
    entry_index: u64,
    log_id: &str,
) -> (settled: MirrorResult<Option<GovernanceState>>)
    ensures
        match settled {
            Ok(next) => gives(
                manifest_settled(
                    state_view(state),
                    payload@,
                    entry_id@,
                    verified,
                    entry_index,
                    log_id@,
                ),
                state_view(next),
            ),
            Err(error) => refuses(
                manifest_settled(
                    state_view(state),
                    payload@,
                    entry_id@,
                    verified,
                    entry_index,
                    log_id@,
                ),
                error,
            ),
        },
{
    if !verified {
        return Ok(state);
    }
    match check_statement_version(payload, entry_index) {
        Ok(_) => {},
        Err(error) => {
            return Err(error);
        },
    }
    match state {
        None => {
            if payload.member("predecessor").is_some() {
                return Ok(None);
            }
            Ok(parse_governance(payload, entry_index, entry_id, log_id, entry_index, None))
        },
        Some(current) => {
            let succeeds: bool = match payload.text_member("predecessor") {
                Some(predecessor) => same_text(
                    predecessor.as_str(),
                    current.governing_manifest_entry_id.as_str(),
                ),
                None => false,
            };
            if !succeeds {
                return Ok(Some(current));
            }
            let next: Option<GovernanceState> = parse_governance(
                payload,
                entry_index,
                entry_id,
                log_id,
                current.genesis_entry_index,
                Some(current.cadence_epoch_nanos),
            );
            match next {
                Some(next) => Ok(Some(next)),
                None => Ok(Some(current)),
            }
        },
    }
}

/// The keys of a list other than those with a key id.
fn without_key(keys: &Vec<ResolvedKeyObject>, key_id: &str) -> (left: Vec<ResolvedKeyObject>)
    ensures
        key_map(keys_view(left@)) == key_map(keys_view(keys@)).remove(key_id@),
{
    let ghost listed = keys_view(keys@);
    let mut left: Vec<ResolvedKeyObject> = Vec::new();
    let mut i: usize = 0;
    proof {
        assert(keys_view(left@) =~= Seq::<KeyView>::empty());
        assert(listed.take(0) =~= Seq::<KeyView>::empty());
        assert(Map::<Seq<char>, KeyView>::empty().remove(key_id@) =~= Map::empty());
    }
    while i < keys.len()
        invariant
            i <= keys@.len(),
            listed == keys_view(keys@),
            key_map(keys_view(left@)) == key_map(listed.take(i as int)).remove(key_id@),
        decreases keys.len() - i,
    {
        let ghost before = keys_view(left@);
        proof {
            assert(listed.take(i + 1).drop_last() =~= listed.take(i as int));
            assert(listed.take(i + 1).last() == keys@[i as int]@);
        }
        if !same_text(keys[i].key_id.as_str(), key_id) {
            left.push(keys[i].clone());
            proof {
                assert(keys_view(left@) =~= before.push(keys@[i as int]@));
                assert(keys_view(left@).drop_last() =~= before);
            }
        }
        assert(key_map(keys_view(left@)) =~= key_map(listed.take(i + 1)).remove(key_id@));
        i += 1;
    }
    assert(listed.take(i as int) =~= listed);
    left
}

/// Settle a `key` statement, given whether its signatures verified.
pub fn settle_key(
    current: GovernanceState,
    payload: &Json,
    verified: bool,
    entry_index: u64,
) -> (settled: MirrorResult<GovernanceState>)
    ensures
        match settled {
            Ok(next) => gives(key_settled(current@, payload@, verified, entry_index), next@),
            Err(error) => refuses(key_settled(current@, payload@, verified, entry_index), error),
        },
{
    if !verified {
        return Ok(current);
    }
    match check_statement_version(payload, entry_index) {
        Ok(_) => {},
        Err(error) => {
            return Err(error);
        },
    }
    let action: &String = match payload.text_member("action") {
        Some(action) => action,
        None => {
            return Ok(current);
        },
    };
    let object: &Json = match payload.member("key") {
        Some(object) => object,
        None => {
            return Ok(current);
        },
    };
    let spec = match decode_key_spec(object) {
        Some(spec) => spec,
        None => {
            return Ok(current);
        },
    };
    let mut next: GovernanceState = current;
    if same_text(action.as_str(), "add") {
        match ResolvedKeyObject::resolve(&spec) {
            Ok(key) => {
                let ghost before = keys_view(next.producer_keys@);
                next.producer_keys.push(key);
                proof {
                    let after = keys_view(next.producer_keys@);
                    assert(after =~= before.push(key@));
                    assert(after.drop_last() =~= before);
                }
            },
            Err(_) => {},
        }
    } else if same_text(action.as_str(), "retire") {
        next.producer_keys = without_key(&next.producer_keys, spec.key_id.as_str());
    }
    Ok(next)
}

// ---- the walk ----

/// The governance after one manifest entry: before the genesis version is established only the
/// configured genesis entry is considered, under the configured keys, the first of several
/// with one id; after it every candidate is, under the producer keys in force. A candidate
/// whose envelope cannot be judged is skipped; only the configured genesis entry is refused for
/// it.
pub open spec fn manifest_step(
    state: Option<GovernanceView>,
    envelope: JsonTree,
    payload: JsonTree,
    entry_index: u64,
    config: ConfigView,
) -> Result<Option<GovernanceView>, Fault> {
    let entry_id = family_text(sha256(jcs_octets(envelope)));
    let keys = match state {
        None => key_map(config.genesis_producer_keys.reverse()),
        Some(current) => current.producer_keys,
    };
    if state is None && entry_id != config.genesis_manifest_entry_id {
        Ok(None)
    } else {
        match envelope_verdict(envelope, active_keys(keys, entry_index)) {
            None => if state is None {
                Err(Fault::Ahl)
            } else {
                Ok(state)
            },
            Some(verified) => manifest_settled(
                state,
                payload,
                entry_id,
                verified,
                entry_index,
                config.log_id,
            ),
        }
    }
}

/// The governance after one `key` entry, under the producer keys in force. One whose envelope
/// cannot be judged is skipped.
pub open spec fn key_step(
    current: GovernanceView,
    envelope: JsonTree,
    payload: JsonTree,
    entry_index: u64,
) -> Result<GovernanceView, Fault> {
    match envelope_verdict(envelope, active_keys(current.producer_keys, entry_index)) {
        None => Ok(current),
        Some(verified) => key_settled(current, payload, verified, entry_index),
    }
}

/// The governance after one document. Anything but a `manifest` or a `key` statement, and a
/// `key` statement before genesis, changes nothing.
pub open spec fn document_step(
    state: Option<GovernanceView>,
    envelope: JsonTree,
    entry_index: u64,
    config: ConfigView,
) -> Result<Option<GovernanceView>, Fault> {
    match envelope.member("payload"@) {
        None => Ok(state),
        Some(payload) => match (payload.text_member("type"@), state) {
            (Some(kind), _) => if kind == "manifest"@ {
                manifest_step(state, envelope, payload, entry_index, config)
            } else if kind == "key"@ && state is Some {
                match key_step(state->0, envelope, payload, entry_index) {
                    Ok(next) => Ok(Some(next)),
                    Err(fault) => Err(fault),
                }
            } else {
                Ok(state)
            },
            _ => Ok(state),
        },
    }
}

/// The governance after one entry; bytes that are not JSON change nothing.
pub open spec fn entry_step(
    state: Option<GovernanceView>,
    entry: Seq<u8>,
    entry_index: u64,
    config: ConfigView,
) -> Result<Option<GovernanceView>, Fault> {
    match json_parsed(entry) {
        None => Ok(state),
        Some(envelope) => document_step(state, envelope, entry_index, config),
    }
}

/// The entry index of the manifest version in force, if there is one.
pub open spec fn governing_index(state: Option<GovernanceView>) -> Option<u64> {
    match state {
        Some(current) => Some(current.governing_manifest_entry_index),
        None => None,
    }
}

/// What walking a log's entries from the first comes to: the governance in force at the end,
/// and the governance as each manifest version left it, in order.
pub open spec fn chain(entries: Seq<Seq<u8>>, config: ConfigView) -> Result<
    (Option<GovernanceView>, Seq<GovernanceView>),
    Fault,
>
    decreases entries.len(),
{
    if entries.len() == 0 {
        Ok((None, Seq::empty()))
    } else {
        match chain(entries.drop_last(), config) {
            Err(fault) => Err(fault),
            Ok((before, versions)) => match entry_step(
                before,
                entries.last(),
                (entries.len() - 1) as u64,
                config,
            ) {
                Err(fault) => Err(fault),
                Ok(after) => if after is Some && governing_index(after) != governing_index(before) {
                    Ok((after, versions.push(after->0)))
                } else {
                    Ok((after, versions))
                },
            },
        }
    }
}

/// The governance in force after a log's entries.
pub open spec fn governance_after(entries: Seq<Seq<u8>>, config: ConfigView) -> Result<
    GovernanceView,
    Fault,
> {
    match chain(entries, config) {
        Err(fault) => Err(fault),
        Ok((Some(state), _)) => Ok(state),
        Ok((None, _)) => Err(
            Fault::GovernanceChainUnresolvable { tree_size: entries.len() as u64 },
        ),
    }
}

/// Every manifest version of a log's entries.
pub open spec fn versions_of(entries: Seq<Seq<u8>>, config: ConfigView) -> Result<
    Seq<GovernanceView>,
    Fault,
> {
    match chain(entries, config) {
        Err(fault) => Err(fault),
        Ok((_, versions)) => if versions.len() == 0 {
            Err(Fault::GovernanceChainUnresolvable { tree_size: entries.len() as u64 })
        } else {
            Ok(versions)
        },
    }
}

/// Evaluate one manifest entry against the governance reached so far.
fn try_apply_manifest(
    state: Option<GovernanceState>,
    envelope: &serde_json::Value,
    payload: &Json,
    entry_index: u64,
    config: &Config,
) -> (applied: MirrorResult<Option<GovernanceState>>)
    ensures
        match applied {
            Ok(next) => gives(
                manifest_step(
                    state_view(state),
                    json_tree(*envelope),
                    payload@,
                    entry_index,
                    config@,
                ),
                state_view(next),
            ),
            Err(error) => refuses(
                manifest_step(
                    state_view(state),
                    json_tree(*envelope),
                    payload@,
                    entry_index,
                    config@,
                ),
                error,
            ),
        },
{
    let entry_id: String = envelope_entry_id(envelope);
    let verdict: Result<bool, ahl_core::AhlError> = match &state {
        None => {
            if !same_text(entry_id.as_str(), config.genesis_manifest_entry_id.as_str()) {
                return Ok(None);
            }
            let keys: Vec<ResolvedKeyObject> = reversed_keys(&config.genesis_producer_keys);
            verify_envelope(envelope, &keys, entry_index)
        },
        Some(current) => verify_envelope(envelope, &current.producer_keys, entry_index),
    };
    match verdict {
        Ok(verified) => settle_manifest(
            state,
            payload,
            entry_id.as_str(),
            verified,
            entry_index,
            config.log_id.as_str(),
        ),
        Err(error) => if state.is_none() {
            Err(MirrorError::Ahl(error))
        } else {
            Ok(state)
        },
    }
}

/// Evaluate one `key` entry against the governance reached so far.
fn try_apply_key(
    current: GovernanceState,
    envelope: &serde_json::Value,
    payload: &Json,
    entry_index: u64,
) -> (applied: MirrorResult<GovernanceState>)
    ensures
        match applied {
            Ok(next) => gives(
                key_step(current@, json_tree(*envelope), payload@, entry_index),
                next@,
            ),
            Err(error) => refuses(
                key_step(current@, json_tree(*envelope), payload@, entry_index),
                error,
            ),
        },
{
    match verify_envelope(envelope, &current.producer_keys, entry_index) {
        Ok(verified) => settle_key(current, payload, verified, entry_index),
        Err(_) => Ok(current),
    }
}

/// Evaluate one entry against the governance reached so far.
fn apply_entry(
    state: Option<GovernanceState>,
    entry: &[u8],
    entry_index: u64,
    config: &Config,
) -> (applied: MirrorResult<Option<GovernanceState>>)
    ensures
        match applied {
            Ok(next) => gives(
                entry_step(state_view(state), entry@, entry_index, config@),
                state_view(next),
            ),
            Err(error) => refuses(
                entry_step(state_view(state), entry@, entry_index, config@),
                error,
            ),
        },
{
    let envelope: serde_json::Value = match parse_value(entry) {
        Ok(envelope) => envelope,
        Err(_) => {
            return Ok(state);
        },
    };
    let document: Json = json_of(&envelope);
    let payload: &Json = match document.member("payload") {
        Some(payload) => payload,
        None => {
            return Ok(state);
        },
    };
    let kind: &String = match payload.text_member("type") {
        Some(kind) => kind,
        None => {
            return Ok(state);
        },
    };
    if same_text(kind.as_str(), "manifest") {
        return try_apply_manifest(state, &envelope, payload, entry_index, config);
    }
    if same_text(kind.as_str(), "key") {
        return match state {
            Some(current) => match try_apply_key(current, &envelope, payload, entry_index) {
                Ok(next) => Ok(Some(next)),
                Err(error) => Err(error),
            },
            None => Ok(None),
        };
    }
    Ok(state)
}

/// A list of governance snapshots by their views.
pub open spec fn states_view(states: Seq<GovernanceState>) -> Seq<GovernanceView> {
    Seq::new(states.len(), |i: int| states[i]@)
}

/// A refusal within a log stands for every longer one.
proof fn a_refusal_stands(entries: Seq<Seq<u8>>, config: ConfigView, count: int)
    requires
        0 <= count <= entries.len(),
        chain(entries.take(count), config) is Err,
    ensures
        chain(entries, config) == chain(entries.take(count), config),
    decreases entries.len(),
{
    if count < entries.len() {
        assert(entries.drop_last().take(count) =~= entries.take(count));
        a_refusal_stands(entries.drop_last(), config, count);
    } else {
        assert(entries.take(count) =~= entries);
    }
}

/// Walk a log's entries from the first.
fn walk(entries: &Vec<Vec<u8>>, config: &Config) -> (walked: MirrorResult<
    (Option<GovernanceState>, Vec<GovernanceState>),
>)
    ensures
        match walked {
            Ok((state, versions)) => gives(
                chain(bytes_view(entries@), config@),
                (state_view(state), states_view(versions@)),
            ),
            Err(error) => refuses(chain(bytes_view(entries@), config@), error),
        },
{
    let ghost listed = bytes_view(entries@);
    let mut state: Option<GovernanceState> = None;
    let mut versions: Vec<GovernanceState> = Vec::new();
    let mut i: usize = 0;
    assert(states_view(versions@) =~= Seq::<GovernanceView>::empty());
    while i < entries.len()
        invariant
            i <= entries@.len(),
            listed == bytes_view(entries@),
            gives(
                chain(listed.take(i as int), config@),
                (state_view(state), states_view(versions@)),
            ),
        decreases entries.len() - i,
    {
        proof {
            assert(listed.take(i + 1).drop_last() =~= listed.take(i as int));
            assert(listed.take(i + 1).last() == entries@[i as int]@);
        }
        let before: Option<u64> = match &state {
            Some(current) => Some(current.governing_manifest_entry_index()),
            None => None,
        };
        match apply_entry(state, entries[i].as_slice(), i as u64, config) {
            Err(error) => {
                proof {
                    a_refusal_stands(listed, config@, i + 1);
                }
                return Err(error);
            },
            Ok(next) => {
                if let Some(current) = &next {
                    let moved: bool = match before {
                        Some(index) => index != current.governing_manifest_entry_index(),
                        None => true,
                    };
                    if moved {
                        let ghost collected = states_view(versions@);
                        versions.push(current.clone());
                        assert(states_view(versions@) =~= collected.push(current@));
                    }
                }
                state = next;
            },
        }
        i += 1;
    }
    assert(listed.take(i as int) =~= listed);
    Ok((state, versions))
}

/// The governance in force after a log's entries.
pub fn resolve(entries_prefix: &Vec<Vec<u8>>, config: &Config) -> (resolved: MirrorResult<
    GovernanceState,
>)
    ensures
        match resolved {
            Ok(state) => gives(governance_after(bytes_view(entries_prefix@), config@), state@),
            Err(error) => refuses(governance_after(bytes_view(entries_prefix@), config@), error),
        },
{
    match walk(entries_prefix, config) {
        Err(error) => Err(error),
        Ok((Some(state), _)) => Ok(state),
        Ok((None, _)) => Err(
            MirrorError::GovernanceChainUnresolvable { tree_size: entries_prefix.len() as u64 },
        ),
    }
}

/// Every manifest version of a log's entries, in order, beginning with the genesis version.
pub fn versions(entries_prefix: &Vec<Vec<u8>>, config: &Config) -> (listed: MirrorResult<
    Vec<GovernanceState>,
>)
    ensures
        match listed {
            Ok(states) => gives(
                versions_of(bytes_view(entries_prefix@), config@),
                states_view(states@),
            ),
            Err(error) => refuses(versions_of(bytes_view(entries_prefix@), config@), error),
        },
{
    match walk(entries_prefix, config) {
        Err(error) => Err(error),
        Ok((_, collected)) => {
            if collected.len() == 0 {
                return Err(
                    MirrorError::GovernanceChainUnresolvable {
                        tree_size: entries_prefix.len() as u64,
                    },
                );
            }
            Ok(collected)
        },
    }
}

// ---- laws of the chain ----

/// Listing the same key objects again, in any order and any number of times, is no rotation;
/// every other list is one, and a rotation one way is a rotation the other way.
pub proof fn only_a_change_of_key_objects_rotates(a: GovernanceView, b: GovernanceView)
    ensures
        a.rotates(b) == !({
            &&& forall|i: int|
                0 <= i < a.log_keys.len() ==> log_key_set(b.log_keys).contains(
                    #[trigger] log_object(a.log_keys[i]),
                )
            &&& forall|i: int|
                0 <= i < b.log_keys.len() ==> log_key_set(a.log_keys).contains(
                    #[trigger] log_object(b.log_keys[i]),
                )
            &&& forall|i: int|
                0 <= i < a.witness_keys.len() ==> witness_key_set(b.witness_keys).contains(
                    #[trigger] witness_object(a.witness_keys[i]),
                )
            &&& forall|i: int|
                0 <= i < b.witness_keys.len() ==> witness_key_set(a.witness_keys).contains(
                    #[trigger] witness_object(b.witness_keys[i]),
                )
        }),
        a.rotates(b) == b.rotates(a),
        !a.rotates(a),
{
    let la = log_key_set(a.log_keys);
    let lb = log_key_set(b.log_keys);
    let wa = witness_key_set(a.witness_keys);
    let wb = witness_key_set(b.witness_keys);
    assert forall|i: int| 0 <= i < a.log_keys.len() implies la.contains(
        #[trigger] log_object(a.log_keys[i]),
    ) by {}
    assert forall|i: int| 0 <= i < b.log_keys.len() implies lb.contains(
        #[trigger] log_object(b.log_keys[i]),
    ) by {}
    assert forall|i: int| 0 <= i < a.witness_keys.len() implies wa.contains(
        #[trigger] witness_object(a.witness_keys[i]),
    ) by {}
    assert forall|i: int| 0 <= i < b.witness_keys.len() implies wb.contains(
        #[trigger] witness_object(b.witness_keys[i]),
    ) by {}
    if (forall|i: int|
        0 <= i < a.log_keys.len() ==> lb.contains(#[trigger] log_object(a.log_keys[i]))) && (
    forall|i: int|
        0 <= i < b.log_keys.len() ==> la.contains(#[trigger] log_object(b.log_keys[i]))) {
        assert(la =~= lb);
    }
    if (forall|i: int|
        0 <= i < a.witness_keys.len() ==> wb.contains(#[trigger] witness_object(a.witness_keys[i])))
        && (forall|i: int|
        0 <= i < b.witness_keys.len() ==> wa.contains(
            #[trigger] witness_object(b.witness_keys[i]),
        )) {
        assert(wa =~= wb);
    }
}

/// A statement whose signatures do not verify never changes the governance, and an authentic
/// one of another revision is always refused, whatever else it holds.
pub proof fn only_authentic_statements_of_this_revision_govern(
    state: Option<GovernanceView>,
    current: GovernanceView,
    payload: JsonTree,
    entry_id: Seq<char>,
    entry_index: u64,
    log_id: Seq<char>,
)
    ensures
        manifest_settled(state, payload, entry_id, false, entry_index, log_id) == Ok::<
            Option<GovernanceView>,
            Fault,
        >(state),
        key_settled(current, payload, false, entry_index) == Ok::<GovernanceView, Fault>(current),
        payload.text_member("ahl_version"@) != Some("0.4"@) ==> {
            &&& manifest_settled(state, payload, entry_id, true, entry_index, log_id) matches Err(
                Fault::UnsupportedStatementVersion { .. },
            )
            &&& key_settled(current, payload, true, entry_index) matches Err(
                Fault::UnsupportedStatementVersion { .. },
            )
        },
{
}

/// Bytes that anyone can append do not abort resolution: once a version is in force, a statement
/// whose envelope does not verify under the producer keys in force, or cannot be judged at all,
/// leaves the governance as it is.
pub proof fn a_later_statement_that_does_not_verify_is_skipped(
    current: GovernanceView,
    envelope: JsonTree,
    payload: JsonTree,
    entry_index: u64,
    config: ConfigView,
)
    requires
        envelope_verdict(envelope, active_keys(current.producer_keys, entry_index)) != Some(true),
    ensures
        manifest_step(Some(current), envelope, payload, entry_index, config) == Ok::<
            Option<GovernanceView>,
            Fault,
        >(Some(current)),
        key_step(current, envelope, payload, entry_index) == Ok::<GovernanceView, Fault>(current),
{
}

/// Once a version is in force, one more entry aborts resolution only where it is an authentic
/// statement of another revision, and then by that name.
pub proof fn only_another_revision_aborts_resolution(
    entries: Seq<Seq<u8>>,
    entry: Seq<u8>,
    config: ConfigView,
)
    requires
        chain(entries, config) matches Ok((state, _)) && state is Some,
    ensures
        chain(entries.push(entry), config) matches Err(fault)
            ==> fault is UnsupportedStatementVersion,
{
    assert(entries.push(entry).drop_last() =~= entries);
}

/// A `key` statement changes the producer keys only: never the signing or witness keys, the
/// cadence, the epoch or the version in force.
pub proof fn a_key_statement_changes_producer_keys_only(
    current: GovernanceView,
    payload: JsonTree,
    verified: bool,
    entry_index: u64,
)
    ensures
        key_settled(current, payload, verified, entry_index) matches Ok(next) ==> next
            == (GovernanceView { producer_keys: next.producer_keys, ..current }),
{
}

/// Whether a list of versions starts at the genesis manifest, ascends in entry index below
/// `count`, and keeps one genesis index and one epoch throughout.
pub open spec fn is_chain(versions: Seq<GovernanceView>, count: int) -> bool {
    &&& versions.len() > 0 ==> versions[0].governing_manifest_entry_index
        == versions[0].genesis_entry_index
    &&& forall|i: int|
        0 <= i < versions.len() ==> {
            &&& (#[trigger] versions[i]).governing_manifest_entry_index < count
            &&& versions[i].genesis_entry_index == versions[0].genesis_entry_index
            &&& versions[i].cadence_epoch_nanos == versions[0].cadence_epoch_nanos
            &&& versions[i].cadence_nanos > 0
        }
    &&& forall|i: int, j: int|
        0 <= i < j < versions.len() ==> (#[trigger] versions[i]).governing_manifest_entry_index < (
        #[trigger] versions[j]).governing_manifest_entry_index
}

/// The versions of any log form one chain from the genesis manifest: their entry indexes
/// ascend, the genesis index and the epoch never move, and every cadence is positive. The
/// governance in force at the end is that of the last version but for its producer keys.
pub proof fn versions_form_one_chain(entries: Seq<Seq<u8>>, config: ConfigView)
    requires
        entries.len() <= u64::MAX,
    ensures
        chain(entries, config) matches Ok((state, versions)) ==> {
            &&& is_chain(versions, entries.len() as int)
            &&& state is None <==> versions.len() == 0
            &&& state matches Some(current) ==> current == (GovernanceView {
                producer_keys: current.producer_keys,
                ..versions.last()
            })
        },
    decreases entries.len(),
{
    if entries.len() > 0 {
        versions_form_one_chain(entries.drop_last(), config);
        if let Ok((before, versions)) = chain(entries.drop_last(), config) {
            let index = (entries.len() - 1) as u64;
            if let Ok(after) = entry_step(before, entries.last(), index, config) {
                a_step_keeps_or_succeeds(before, entries.last(), index, config);
            }
        }
    }
}

/// One entry leaves the version in force as it is, or puts a new one in force at its own
/// index that keeps the genesis index and the epoch.
proof fn a_step_keeps_or_succeeds(
    before: Option<GovernanceView>,
    entry: Seq<u8>,
    index: u64,
    config: ConfigView,
)
    ensures
        entry_step(before, entry, index, config) matches Ok(after) ==> {
            ||| after == before
            ||| {
                &&& after is Some
                &&& before is Some
                &&& after->0 == (GovernanceView {
                    producer_keys: after->0.producer_keys,
                    ..before->0
                })
            }
            ||| {
                &&& after is Some
                &&& after->0.governing_manifest_entry_index == index
                &&& after->0.cadence_nanos > 0
                &&& match before {
                    Some(current) => after->0.genesis_entry_index == current.genesis_entry_index
                        && after->0.cadence_epoch_nanos == current.cadence_epoch_nanos,
                    None => after->0.genesis_entry_index == index,
                }
            }
        },
{
    if let Some(envelope) = json_parsed(entry) {
        if let Some(payload) = envelope.member("payload"@) {
            positive_cadences(payload);
            if let Some(current) = before {
                a_key_statement_changes_producer_keys_only(current, payload, true, index);
            }
        }
    }
}

/// A manifest with a readable cadence declares a positive one that fits.
proof fn positive_cadences(payload: JsonTree)
    ensures
        forall|index: u64, id: Seq<char>, log_id: Seq<char>, genesis: u64, epoch: Option<u64>|
            (#[trigger] governance_of(payload, index, id, log_id, genesis, epoch)) matches Some(g)
                ==> g.cadence_nanos > 0,
{
    assert forall|index: u64, id: Seq<char>, log_id: Seq<char>, genesis: u64, epoch: Option<u64>|
        (#[trigger] governance_of(payload, index, id, log_id, genesis, epoch)) matches Some(
            g,
        ) implies governance_of(payload, index, id, log_id, genesis, epoch)->0.cadence_nanos
        > 0 by {
        let log = log_of(payload.member("log"@)->0)->0;
        durations_fit(log.checkpoint_cadence);
    }
}

/// A duration that is read fits `u64`.
proof fn durations_fit(value: Seq<char>)
    ensures
        duration_nanos(value) matches Ok(nanos) ==> nanos <= u64::MAX,
{
}

// ---- what a statement does ----

/// Whether an entry is a statement of a type: a JSON document with a payload that names the type.
pub open spec fn states(
    entry: Seq<u8>,
    kind: Seq<char>,
    envelope: JsonTree,
    payload: JsonTree,
) -> bool {
    &&& json_parsed(entry) == Some(envelope)
    &&& envelope.member("payload"@) == Some(payload)
    &&& payload.member("type"@) == Some(JsonTree::Text(kind))
}

/// Whether an envelope is signed under keys at an entry index: every signature verifies, each
/// under the key of its id where that key is valid by then.
pub open spec fn signed_under(
    envelope: JsonTree,
    keys: Map<Seq<char>, KeyView>,
    index: nat,
) -> bool {
    envelope_verdict(
        envelope,
        Map::new(
            |id: Seq<char>| keys.contains_key(id) && keys[id].valid_from_index <= index,
            |id: Seq<char>| keys[id].pubkey,
        ),
    ) == Some(true)
}

/// Whether a payload is of the revision that is read.
pub open spec fn of_this_revision(payload: JsonTree) -> bool {
    payload.member("ahl_version"@) == Some(JsonTree::Text("0.4"@))
}

/// Signatures are judged under exactly the keys that are valid at the index.
proof fn keys_are_those_valid_at_the_index(keys: Map<Seq<char>, KeyView>, index: u64)
    ensures
        active_keys(keys, index) == Map::new(
            |id: Seq<char>| keys.contains_key(id) && keys[id].valid_from_index <= index,
            |id: Seq<char>| keys[id].pubkey,
        ),
{
}

/// The actions and the types that are told apart.
proof fn words_differ()
    ensures
        "add"@ != "retire"@,
        "key"@ != "manifest"@,
{
    reveal_strlit("add");
    reveal_strlit("retire");
    reveal_strlit("key");
    reveal_strlit("manifest");
    assert("add"@.len() != "retire"@.len());
    assert("key"@.len() != "manifest"@.len());
}

/// An authentic `key` statement of this revision does what it says, and nothing else. One that
/// retires a key with a readable key object leaves the producer keys without that id; one that
/// adds a key that resolves maps its id to it; every other id maps as before, and everything but
/// the producer keys is as it was. Any other action, and a key object that cannot be read or
/// resolved, changes nothing.
pub proof fn a_key_statement_does_what_it_says(
    entries: Seq<Seq<u8>>,
    entry: Seq<u8>,
    config: ConfigView,
    envelope: JsonTree,
    payload: JsonTree,
)
    requires
        entries.len() < u64::MAX,
        chain(entries, config) matches Ok((state, _)) && state is Some,
        states(entry, "key"@, envelope, payload),
        of_this_revision(payload),
        signed_under(
            envelope,
            chain(entries, config)->Ok_0.0->0.producer_keys,
            entries.len(),
        ),
    ensures
        ({
            let current = chain(entries, config)->Ok_0.0->0;
            let versions = chain(entries, config)->Ok_0.1;
            let action = payload.member("action"@);
            let spec = match payload.member("key"@) {
                Some(object) => key_spec_of(object),
                None => None,
            };
            let added = match spec {
                Some(declared) => match resolved_key(declared) {
                    Ok(key) => Some(key),
                    Err(_) => None,
                },
                None => None,
            };
            &&& chain(entries.push(entry), config) matches Ok((Some(next), after))
            &&& after == versions
            &&& next == (GovernanceView { producer_keys: next.producer_keys, ..current })
            &&& action == Some(JsonTree::Text("retire"@)) && spec is Some ==> {
                &&& !next.producer_keys.contains_key(spec->0.key_id)
                &&& forall|id: Seq<char>| #[trigger]
                    next.producer_keys.contains_key(id) <==> current.producer_keys.contains_key(id)
                        && id != spec->0.key_id
                &&& forall|id: Seq<char>| #[trigger]
                    next.producer_keys.contains_key(id) ==> next.producer_keys[id]
                        == current.producer_keys[id]
            }
            &&& action == Some(JsonTree::Text("add"@)) && added is Some ==> {
                &&& next.producer_keys.contains_key(spec->0.key_id)
                &&& next.producer_keys[spec->0.key_id] == added->0
                &&& forall|id: Seq<char>|
                    id != spec->0.key_id ==> (#[trigger] next.producer_keys.contains_key(id)
                        <==> current.producer_keys.contains_key(id))
                &&& forall|id: Seq<char>|
                    id != spec->0.key_id && #[trigger] next.producer_keys.contains_key(id)
                        ==> next.producer_keys[id] == current.producer_keys[id]
            }
            &&& !(action == Some(JsonTree::Text("retire"@)) && spec is Some) && !(action == Some(
                JsonTree::Text("add"@),
            ) && added is Some) ==> next == current
        }),
{
    words_differ();
    let current = chain(entries, config)->Ok_0.0->0;
    assert(entries.push(entry).drop_last() =~= entries);
    assert(entries.push(entry).last() == entry);
    keys_are_those_valid_at_the_index(current.producer_keys, entries.len() as u64);
    let index = entries.len() as u64;
    assert(key_step(current, envelope, payload, index) == key_settled(
        current,
        payload,
        true,
        index,
    ));
    a_key_statement_changes_producer_keys_only(current, payload, true, index);
}

/// An authentic statement of another revision stops resolution by that name, whatever else it
/// says: what it declares, or that it declares nothing, is told with the entry index.
pub proof fn an_authentic_statement_of_another_revision_is_refused(
    entries: Seq<Seq<u8>>,
    entry: Seq<u8>,
    config: ConfigView,
    envelope: JsonTree,
    payload: JsonTree,
)
    requires
        entries.len() < u64::MAX,
        chain(entries, config) matches Ok((state, _)) && state is Some,
        states(entry, "key"@, envelope, payload) || states(
            entry,
            "manifest"@,
            envelope,
            payload,
        ),
        !of_this_revision(payload),
        signed_under(
            envelope,
            chain(entries, config)->Ok_0.0->0.producer_keys,
            entries.len(),
        ),
    ensures
        chain(entries.push(entry), config) == Err::<
            (Option<GovernanceView>, Seq<GovernanceView>),
            Fault,
        >(
            Fault::UnsupportedStatementVersion {
                entry_index: entries.len() as u64,
                declared: match payload.member("ahl_version"@) {
                    Some(JsonTree::Text(text)) => Some(text),
                    _ => None,
                },
                expected: "0.4"@,
            },
        ),
{
    words_differ();
    let current = chain(entries, config)->Ok_0.0->0;
    assert(entries.push(entry).drop_last() =~= entries);
    assert(entries.push(entry).last() == entry);
    keys_are_those_valid_at_the_index(current.producer_keys, entries.len() as u64);
}

/// Whether a payload declares a governance: the producer keys, the log's keys and the witness
/// keys that resolve, the configured log, a readable grace period, and the cadence and the epoch
/// it reads as.
pub open spec fn declares(payload: JsonTree, log_id: Seq<char>, g: GovernanceView) -> bool {
    &&& payload.member("keys"@) matches Some(producers)
    &&& keys_of(producers) matches Some(producer_keys)
    &&& g.producer_keys == key_map(producer_keys)
    &&& payload.member("log"@) matches Some(block)
    &&& log_of(block) matches Some(log)
    &&& log.log_id == log_id
    &&& g.log_keys == log.keys
    &&& witness_keys_of(payload) == Some(g.witness_keys)
    &&& duration_nanos(log.checkpoint_cadence) == Ok::<nat, Fault>(g.cadence_nanos as nat)
    &&& g.cadence_nanos > 0
    &&& duration_nanos(log.witness_grace_period) is Ok
    &&& epoch_nanos(log.cadence_epoch) == Ok::<u64, Fault>(g.cadence_epoch_nanos)
}

/// A payload is read as the governance that it declares, filed under the entry it stands in; and
/// it is read as none exactly where it declares none, or declares another epoch than required.
pub proof fn a_manifest_is_read_as_it_declares(
    payload: JsonTree,
    entry_index: u64,
    entry_id: Seq<char>,
    log_id: Seq<char>,
    genesis: u64,
    required: Option<u64>,
    g: GovernanceView,
)
    ensures
        governance_of(payload, entry_index, entry_id, log_id, genesis, required) == Some(g) <==> {
            &&& declares(payload, log_id, g)
            &&& g.governing_manifest_entry_index == entry_index
            &&& g.governing_manifest_entry_id == entry_id
            &&& g.genesis_entry_index == genesis
            &&& required matches Some(epoch) ==> g.cadence_epoch_nanos == epoch
        },
{
    if let Some(block) = payload.member("log"@) {
        if let Some(log) = log_of(block) {
            durations_fit(log.checkpoint_cadence);
        }
    }
    if let Some(read) = governance_of(payload, entry_index, entry_id, log_id, genesis, required) {
        assert(declares(payload, log_id, read));
        if declares(payload, log_id, g) && g.governing_manifest_entry_index == entry_index
            && g.governing_manifest_entry_id == entry_id && g.genesis_entry_index == genesis {
            assert(g == read);
        }
    } else if declares(payload, log_id, g) && g.governing_manifest_entry_index == entry_index
        && g.governing_manifest_entry_id == entry_id && g.genesis_entry_index == genesis && (
    required matches Some(epoch) ==> g.cadence_epoch_nanos == epoch) {
        let block = payload.member("log"@)->0;
        let log = log_of(block)->0;
        assert(cadence_nanos(log.checkpoint_cadence) is Ok);
    }
}

/// The first version: before there is one, an entry brings it in exactly where it is the
/// configured genesis manifest, signed under the configured keys, of this revision, without a
/// predecessor, and declares a governance; it is then in force from its own index on. An entry
/// that is not the configured genesis manifest changes nothing.
pub proof fn only_the_configured_genesis_manifest_begins(
    entries: Seq<Seq<u8>>,
    entry: Seq<u8>,
    config: ConfigView,
    envelope: JsonTree,
    payload: JsonTree,
)
    requires
        entries.len() < u64::MAX,
        chain(entries, config) matches Ok((state, _)) && state is None,
    ensures
        ({
            let versions = chain(entries, config)->Ok_0.1;
            let index = entries.len() as u64;
            let after = chain(entries.push(entry), config);
            let id = family_text(sha256(jcs_octets(envelope)));
            &&& (json_parsed(entry) is None || !states(entry, "manifest"@, envelope, payload)
                && json_parsed(entry) == Some(envelope) && envelope.member("payload"@) == Some(
                payload,
            ) || states(entry, "manifest"@, envelope, payload) && id
                != config.genesis_manifest_entry_id) ==> after == Ok::<
                (Option<GovernanceView>, Seq<GovernanceView>),
                Fault,
            >((None, versions))
            &&& states(entry, "manifest"@, envelope, payload) && id
                == config.genesis_manifest_entry_id && signed_under(
                envelope,
                key_map(config.genesis_producer_keys.reverse()),
                entries.len(),
            ) && of_this_revision(payload) ==> match after {
                Ok((Some(g), now)) => {
                    &&& payload.member("predecessor"@) is None
                    &&& declares(payload, config.log_id, g)
                    &&& g.governing_manifest_entry_index == index
                    &&& g.genesis_entry_index == index
                    &&& g.governing_manifest_entry_id == id
                    &&& now == versions.push(g)
                },
                Ok((None, now)) => {
                    &&& now == versions
                    &&& payload.member("predecessor"@) is Some || forall|g: GovernanceView|
                        !#[trigger] declares(payload, config.log_id, g)
                },
                Err(_) => false,
            }
        }),
{
    words_differ();
    let index = entries.len() as u64;
    let id = family_text(sha256(jcs_octets(envelope)));
    assert(entries.push(entry).drop_last() =~= entries);
    assert(entries.push(entry).last() == entry);
    keys_are_those_valid_at_the_index(key_map(config.genesis_producer_keys.reverse()), index);
    if states(entry, "manifest"@, envelope, payload) {
        let read = governance_of(payload, index, id, config.log_id, index, None);
        if let Some(g) = read {
            a_manifest_is_read_as_it_declares(payload, index, id, config.log_id, index, None, g);
        } else {
            assert forall|g: GovernanceView| !#[trigger] declares(payload, config.log_id, g) by {
                let filed = GovernanceView {
                    governing_manifest_entry_index: index,
                    governing_manifest_entry_id: id,
                    genesis_entry_index: index,
                    ..g
                };
                if declares(payload, config.log_id, g) {
                    assert(declares(payload, config.log_id, filed));
                }
                a_manifest_is_read_as_it_declares(
                    payload,
                    index,
                    id,
                    config.log_id,
                    index,
                    None,
                    filed,
                );
            }
        }
    }
}

/// A later version: an authentic manifest of this revision succeeds the version in force exactly
/// where it names it as its predecessor and declares a governance with the same epoch; it is then
/// in force from its own index on, with the genesis index kept. Any other changes nothing.
pub proof fn only_a_named_successor_with_the_same_epoch_succeeds(
    entries: Seq<Seq<u8>>,
    entry: Seq<u8>,
    config: ConfigView,
    envelope: JsonTree,
    payload: JsonTree,
)
    requires
        entries.len() < u64::MAX,
        chain(entries, config) matches Ok((state, _)) && state is Some,
        states(entry, "manifest"@, envelope, payload),
        of_this_revision(payload),
        signed_under(
            envelope,
            chain(entries, config)->Ok_0.0->0.producer_keys,
            entries.len(),
        ),
    ensures
        ({
            let current = chain(entries, config)->Ok_0.0->0;
            let versions = chain(entries, config)->Ok_0.1;
            let index = entries.len() as u64;
            let id = family_text(sha256(jcs_octets(envelope)));
            let named = payload.member("predecessor"@) == Some(
                JsonTree::Text(current.governing_manifest_entry_id),
            );
            let after = chain(entries.push(entry), config);
            &&& forall|g: GovernanceView|
                named && #[trigger] declares(payload, config.log_id, g) && g.cadence_epoch_nanos
                    == current.cadence_epoch_nanos && g.governing_manifest_entry_index == index
                    && g.governing_manifest_entry_id == id && g.genesis_entry_index
                    == current.genesis_entry_index ==> after == Ok::<
                    (Option<GovernanceView>, Seq<GovernanceView>),
                    Fault,
                >((Some(g), versions.push(g)))
            &&& !named || (forall|g: GovernanceView| #[trigger]
                declares(payload, config.log_id, g) ==> g.cadence_epoch_nanos
                    != current.cadence_epoch_nanos) ==> after == Ok::<
                (Option<GovernanceView>, Seq<GovernanceView>),
                Fault,
            >((Some(current), versions))
        }),
{
    words_differ();
    let current = chain(entries, config)->Ok_0.0->0;
    let index = entries.len() as u64;
    let id = family_text(sha256(jcs_octets(envelope)));
    let epoch = Some(current.cadence_epoch_nanos);
    versions_form_one_chain(entries, config);
    let genesis = current.genesis_entry_index;
    assert(entries.push(entry).drop_last() =~= entries);
    assert(entries.push(entry).last() == entry);
    keys_are_those_valid_at_the_index(current.producer_keys, index);
    assert forall|g: GovernanceView| #[trigger]
        declares(payload, config.log_id, g) && g.cadence_epoch_nanos == current.cadence_epoch_nanos
            && g.governing_manifest_entry_index == index && g.governing_manifest_entry_id == id
            && g.genesis_entry_index == genesis implies governance_of(
        payload,
        index,
        id,
        config.log_id,
        genesis,
        epoch,
    ) == Some(g) by {
        a_manifest_is_read_as_it_declares(payload, index, id, config.log_id, genesis, epoch, g);
    }
    if let Some(g) = governance_of(payload, index, id, config.log_id, genesis, epoch) {
        a_manifest_is_read_as_it_declares(payload, index, id, config.log_id, genesis, epoch, g);
    }
}

/// Once a version is in force, an entry that is neither a `manifest` nor a `key` statement signed
/// under the producer keys in force leaves everything as it is, whatever its bytes are.
pub proof fn only_signed_statements_govern(
    entries: Seq<Seq<u8>>,
    entry: Seq<u8>,
    config: ConfigView,
)
    requires
        entries.len() < u64::MAX,
        chain(entries, config) matches Ok((state, _)) && state is Some,
        forall|envelope: JsonTree, payload: JsonTree|
            (#[trigger] states(entry, "key"@, envelope, payload) || states(
                entry,
                "manifest"@,
                envelope,
                payload,
            )) ==> !signed_under(
                envelope,
                chain(entries, config)->Ok_0.0->0.producer_keys,
                entries.len(),
            ),
    ensures
        chain(entries.push(entry), config) == chain(entries, config),
{
    words_differ();
    let current = chain(entries, config)->Ok_0.0->0;
    let index = entries.len() as u64;
    assert(entries.push(entry).drop_last() =~= entries);
    assert(entries.push(entry).last() == entry);
    keys_are_those_valid_at_the_index(current.producer_keys, index);
    if let Some(envelope) = json_parsed(entry) {
        if let Some(payload) = envelope.member("payload"@) {
            let is_key = states(entry, "key"@, envelope, payload);
            let is_manifest = states(entry, "manifest"@, envelope, payload);
            if is_key || is_manifest {
                a_later_statement_that_does_not_verify_is_skipped(
                    current,
                    envelope,
                    payload,
                    index,
                    config,
                );
            }
        }
    }
}

/// A version is the governance right after its manifest: at the entry it stands in, it is what is
/// in force and the last version so far.
pub proof fn a_version_is_in_force_right_after_its_manifest(
    entries: Seq<Seq<u8>>,
    config: ConfigView,
    k: int,
)
    requires
        entries.len() <= u64::MAX,
        chain(entries, config) matches Ok((_, versions)) && 0 <= k < versions.len(),
    ensures
        ({
            let versions = chain(entries, config)->Ok_0.1;
            let index = versions[k].governing_manifest_entry_index;
            &&& index < entries.len()
            &&& chain(entries.take(index + 1), config) == Ok::<
                (Option<GovernanceView>, Seq<GovernanceView>),
                Fault,
            >((Some(versions[k]), versions.take(k + 1)))
        }),
    decreases entries.len(),
{
    let rest = entries.drop_last();
    let index = (entries.len() - 1) as u64;
    let before = chain(rest, config)->Ok_0.0;
    let earlier = chain(rest, config)->Ok_0.1;
    let versions = chain(entries, config)->Ok_0.1;
    a_step_keeps_or_succeeds(before, entries.last(), index, config);
    versions_form_one_chain(rest, config);
    if k < earlier.len() {
        a_version_is_in_force_right_after_its_manifest(rest, config, k);
        let at = versions[k].governing_manifest_entry_index;
        assert(versions[k] == earlier[k]);
        assert(rest.take(at + 1) =~= entries.take(at + 1));
        assert(earlier.take(k + 1) =~= versions.take(k + 1));
    } else {
        assert(entries.take(index + 1) =~= entries);
        assert(versions.take(k + 1) =~= versions);
    }
}

/// What resolution gives: the governance in force after the entries, and their versions; and it is
/// unresolvable exactly where no version was ever brought in.
pub proof fn resolution_gives_what_the_chain_comes_to(entries: Seq<Seq<u8>>, config: ConfigView)
    requires
        entries.len() <= u64::MAX,
    ensures
        match chain(entries, config) {
            Err(fault) => governance_after(entries, config) == Err::<GovernanceView, Fault>(fault)
                && versions_of(entries, config) == Err::<Seq<GovernanceView>, Fault>(fault),
            Ok((Some(state), versions)) => versions.len() > 0 && governance_after(entries, config)
                == Ok::<GovernanceView, Fault>(state) && versions_of(entries, config) == Ok::<
                Seq<GovernanceView>,
                Fault,
            >(versions),
            Ok((None, _)) => ({
                let fault = Fault::GovernanceChainUnresolvable { tree_size: entries.len() as u64 };
                governance_after(entries, config) == Err::<GovernanceView, Fault>(fault)
                    && versions_of(entries, config) == Err::<Seq<GovernanceView>, Fault>(fault)
            }),
        },
{
    versions_form_one_chain(entries, config);
}

/// Keys by key id: an id has a key exactly where the list has one of the id, and it is the last.
pub proof fn an_id_has_its_last_key(keys: Seq<KeyView>, id: Seq<char>)
    ensures
        key_map(keys).contains_key(id) <==> exists|i: int|
            0 <= i < keys.len() && (#[trigger] keys[i]).key_id == id,
        key_map(keys).contains_key(id) ==> exists|i: int|
            0 <= i < keys.len() && (#[trigger] keys[i]).key_id == id && key_map(keys)[id] == keys[i]
                && forall|j: int| i < j < keys.len() ==> (#[trigger] keys[j]).key_id != id,
    decreases keys.len(),
{
    if keys.len() > 0 {
        let rest = keys.drop_last();
        let at = keys.len() - 1;
        an_id_has_its_last_key(rest, id);
        assert forall|i: int| 0 <= i < rest.len() implies #[trigger] keys[i] == rest[i] by {}
        if keys.last().key_id == id {
            assert(keys[at].key_id == id && key_map(keys)[id] == keys[at]);
        } else if key_map(rest).contains_key(id) {
            let i = choose|i: int|
                0 <= i < rest.len() && (#[trigger] rest[i]).key_id == id && key_map(rest)[id]
                    == rest[i] && forall|j: int|
                    i < j < rest.len() ==> (#[trigger] rest[j]).key_id != id;
            assert(keys[i].key_id == id && key_map(keys)[id] == keys[i]);
            assert forall|j: int| i < j < keys.len() implies (#[trigger] keys[j]).key_id != id by {
                if j < at {
                    assert(keys[j] == rest[j]);
                }
            }
        }
    }
}

/// The first key of an id is found wherever there is one.
proof fn a_first_key_is_found(keys: Seq<KeyView>, id: Seq<char>, from: int)
    requires
        0 <= from <= keys.len(),
    ensures
        match first_key(keys, id, from) {
            Some(key) => exists|i: int|
                from <= i < keys.len() && #[trigger] keys[i] == key && key.key_id == id && forall|
                    j: int,
                |
                    from <= j < i ==> (#[trigger] keys[j]).key_id != id,
            None => forall|i: int| from <= i < keys.len() ==> (#[trigger] keys[i]).key_id != id,
        },
    decreases keys.len() - from,
{
    if from < keys.len() {
        a_first_key_is_found(keys, id, from + 1);
        if keys[from].key_id != id {
            if let Some(key) = first_key(keys, id, from + 1) {
                let i = choose|i: int|
                    from + 1 <= i < keys.len() && #[trigger] keys[i] == key && key.key_id == id
                        && forall|j: int| from + 1 <= j < i ==> (#[trigger] keys[j]).key_id != id;
                assert(keys[i] == key);
            }
        }
    }
}

/// The key that a checkpoint is verified under: the first log key listed with its id, where it is
/// valid for the size; a listed key that is not yet valid and an id that is not listed are each
/// refused by name.
pub proof fn a_checkpoint_is_verified_under_the_first_listed_key(
    governance: GovernanceView,
    key_id: Seq<char>,
    tree_size: u64,
)
    ensures
        match governance.log_key(key_id, tree_size) {
            Ok(raw) => exists|i: int|
                0 <= i < governance.log_keys.len() && (#[trigger] governance.log_keys[i]).key_id
                    == key_id && governance.log_keys[i].valid_from_index <= tree_size
                    && governance.log_keys[i].verifying_key == raw && forall|j: int|
                    0 <= j < i ==> (#[trigger] governance.log_keys[j]).key_id != key_id,
            Err(fault) => (fault == (Fault::UnknownSigningKey { key_id }) && forall|i: int|
                0 <= i < governance.log_keys.len() ==> (#[trigger] governance.log_keys[i]).key_id
                    != key_id) || exists|i: int|
                0 <= i < governance.log_keys.len() && (#[trigger] governance.log_keys[i]).key_id
                    == key_id && tree_size < governance.log_keys[i].valid_from_index && fault == (
                Fault::KeyNotYetActive {
                    key_id,
                    valid_from_index: governance.log_keys[i].valid_from_index,
                    tree_size,
                }) && forall|j: int|
                    0 <= j < i ==> (#[trigger] governance.log_keys[j]).key_id != key_id,
        },
{
    a_first_key_is_found(governance.log_keys, key_id, 0);
    if let Some(key) = first_key(governance.log_keys, key_id, 0) {
        let i = choose|i: int|
            0 <= i < governance.log_keys.len() && #[trigger] governance.log_keys[i] == key
                && key.key_id == key_id && forall|j: int|
                0 <= j < i ==> (#[trigger] governance.log_keys[j]).key_id != key_id;
        assert(governance.log_keys[i].key_id == key_id);
    }
}

/// Whether two keys are the same key object: the same id, public key and first index.
pub open spec fn same_key_object(a: KeyView, b: KeyView) -> bool {
    a.key_id == b.key_id && a.pubkey == b.pubkey && a.valid_from_index == b.valid_from_index
}

/// Whether a list has a counterpart of a key object.
pub open spec fn has_counterpart(key: KeyView, list: Seq<KeyView>) -> bool {
    exists|j: int| 0 <= j < list.len() && same_key_object(key, #[trigger] list[j])
}

/// Whether every key object of a list has a counterpart in another.
pub open spec fn have_counterparts(a: Seq<KeyView>, b: Seq<KeyView>) -> bool {
    forall|i: int| 0 <= i < a.len() ==> has_counterpart(#[trigger] a[i], b)
}

/// Whether a list has a counterpart of a witness key object, of the same witness.
pub open spec fn has_witness_counterpart(
    key: (Seq<char>, KeyView),
    list: Seq<(Seq<char>, KeyView)>,
) -> bool {
    exists|j: int|
        0 <= j < list.len() && key.0 == (#[trigger] list[j]).0 && same_key_object(
            key.1,
            list[j].1,
        )
}

/// Whether every witness key object of a list has a counterpart of the same witness in another.
pub open spec fn have_witness_counterparts(
    a: Seq<(Seq<char>, KeyView)>,
    b: Seq<(Seq<char>, KeyView)>,
) -> bool {
    forall|i: int| 0 <= i < a.len() ==> has_witness_counterpart(#[trigger] a[i], b)
}

/// A version rotates another exactly where a log key object or a witness key object of one has no
/// counterpart in the other; of a witness key the witness counts too.
pub proof fn a_rotation_is_a_key_object_without_counterpart(a: GovernanceView, b: GovernanceView)
    ensures
        a.rotates(b) == !(have_counterparts(a.log_keys, b.log_keys) && have_counterparts(
            b.log_keys,
            a.log_keys,
        ) && have_witness_counterparts(a.witness_keys, b.witness_keys)
            && have_witness_counterparts(b.witness_keys, a.witness_keys)),
{
    only_a_change_of_key_objects_rotates(a, b);
    key_sets_by_counterparts(a.log_keys, b.log_keys);
    key_sets_by_counterparts(b.log_keys, a.log_keys);
    witness_sets_by_counterparts(a.witness_keys, b.witness_keys);
    witness_sets_by_counterparts(b.witness_keys, a.witness_keys);
}

/// Key objects are within a list's set exactly where each has a counterpart in the list.
proof fn key_sets_by_counterparts(a: Seq<KeyView>, b: Seq<KeyView>)
    ensures
        (forall|i: int|
            0 <= i < a.len() ==> log_key_set(b).contains(#[trigger] log_object(a[i])))
            <==> have_counterparts(a, b),
{
    if forall|i: int| 0 <= i < a.len() ==> log_key_set(b).contains(#[trigger] log_object(a[i])) {
        assert forall|i: int| 0 <= i < a.len() implies has_counterpart(#[trigger] a[i], b) by {
            assert(log_key_set(b).contains(log_object(a[i])));
            let j = choose|j: int|
                0 <= j < b.len() && #[trigger] log_object(b[j]) == log_object(a[i]);
            assert(same_key_object(a[i], b[j]));
        }
    }
    if have_counterparts(a, b) {
        assert forall|i: int| 0 <= i < a.len() implies log_key_set(b).contains(
            #[trigger] log_object(a[i]),
        ) by {
            assert(has_counterpart(a[i], b));
            let j = choose|j: int| 0 <= j < b.len() && same_key_object(a[i], #[trigger] b[j]);
            assert(log_object(b[j]) == log_object(a[i]));
        }
    }
}

/// Witness key objects are within a list's set exactly where each has a counterpart in the list.
proof fn witness_sets_by_counterparts(
    a: Seq<(Seq<char>, KeyView)>,
    b: Seq<(Seq<char>, KeyView)>,
)
    ensures
        (forall|i: int|
            0 <= i < a.len() ==> witness_key_set(b).contains(#[trigger] witness_object(a[i])))
            <==> have_witness_counterparts(a, b),
{
    if forall|i: int|
        0 <= i < a.len() ==> witness_key_set(b).contains(#[trigger] witness_object(a[i])) {
        assert forall|i: int| 0 <= i < a.len() implies has_witness_counterpart(
            #[trigger] a[i],
            b,
        ) by {
            assert(witness_key_set(b).contains(witness_object(a[i])));
            let j = choose|j: int|
                0 <= j < b.len() && #[trigger] witness_object(b[j]) == witness_object(a[i]);
            assert(same_key_object(a[i].1, b[j].1));
        }
    }
    if have_witness_counterparts(a, b) {
        assert forall|i: int| 0 <= i < a.len() implies witness_key_set(b).contains(
            #[trigger] witness_object(a[i]),
        ) by {
            assert(has_witness_counterpart(a[i], b));
            let j = choose|j: int|
                0 <= j < b.len() && a[i].0 == (#[trigger] b[j]).0 && same_key_object(
                    a[i].1,
                    b[j].1,
                );
            assert(witness_object(b[j]) == witness_object(a[i]));
        }
    }
}

/// Before there is a version, an entry that is no `manifest` statement changes nothing, whatever
/// its bytes are.
pub proof fn only_a_manifest_begins(entries: Seq<Seq<u8>>, entry: Seq<u8>, config: ConfigView)
    requires
        entries.len() < u64::MAX,
        chain(entries, config) matches Ok((state, _)) && state is None,
        forall|envelope: JsonTree, payload: JsonTree|
            !#[trigger] states(entry, "manifest"@, envelope, payload),
    ensures
        chain(entries.push(entry), config) == chain(entries, config),
{
    assert(entries.push(entry).drop_last() =~= entries);
    assert(entries.push(entry).last() == entry);
    if let Some(envelope) = json_parsed(entry) {
        if let Some(payload) = envelope.member("payload"@) {
            assert(!states(entry, "manifest"@, envelope, payload));
        }
    }
}

/// The configured genesis manifest is held to its word: where its envelope cannot be judged under
/// the configured keys it is refused, where a signature does not verify it is passed over, and
/// where it verifies but is of another revision it is refused by that name.
pub proof fn the_genesis_manifest_is_held_to_its_word(
    entries: Seq<Seq<u8>>,
    entry: Seq<u8>,
    config: ConfigView,
    envelope: JsonTree,
    payload: JsonTree,
)
    requires
        entries.len() < u64::MAX,
        chain(entries, config) matches Ok((state, _)) && state is None,
        states(entry, "manifest"@, envelope, payload),
        family_text(sha256(jcs_octets(envelope))) == config.genesis_manifest_entry_id,
    ensures
        ({
            let keys = key_map(config.genesis_producer_keys.reverse());
            let verdict = envelope_verdict(
                envelope,
                Map::new(
                    |id: Seq<char>|
                        keys.contains_key(id) && keys[id].valid_from_index <= entries.len(),
                    |id: Seq<char>| keys[id].pubkey,
                ),
            );
            let after = chain(entries.push(entry), config);
            &&& verdict is None ==> after == Err::<
                (Option<GovernanceView>, Seq<GovernanceView>),
                Fault,
            >(Fault::Ahl)
            &&& verdict == Some(false) ==> after == chain(entries, config)
            &&& verdict == Some(true) && !of_this_revision(payload) ==> after == Err::<
                (Option<GovernanceView>, Seq<GovernanceView>),
                Fault,
            >(
                Fault::UnsupportedStatementVersion {
                    entry_index: entries.len() as u64,
                    declared: match payload.member("ahl_version"@) {
                        Some(JsonTree::Text(text)) => Some(text),
                        _ => None,
                    },
                    expected: "0.4"@,
                },
            )
        }),
{
    assert(entries.push(entry).drop_last() =~= entries);
    assert(entries.push(entry).last() == entry);
    let keys = key_map(config.genesis_producer_keys.reverse());
    assert(active_keys(keys, entries.len() as u64) =~= Map::new(
        |id: Seq<char>| keys.contains_key(id) && keys[id].valid_from_index <= entries.len(),
        |id: Seq<char>| keys[id].pubkey,
    ));
}

/// An empty log has no governance.
pub proof fn an_empty_log_has_no_governance(config: ConfigView)
    ensures
        chain(Seq::empty(), config) == Ok::<(Option<GovernanceView>, Seq<GovernanceView>), Fault>(
            (None, Seq::empty()),
        ),
{
}

/// A refusal stands: once an entry stops resolution, no later entry resumes it.
pub proof fn a_refusal_of_the_chain_stands(
    entries: Seq<Seq<u8>>,
    more: Seq<Seq<u8>>,
    config: ConfigView,
)
    requires
        chain(entries, config) is Err,
    ensures
        chain(entries + more, config) == chain(entries, config),
    decreases more.len(),
{
    if more.len() == 0 {
        assert(entries + more =~= entries);
    } else {
        a_refusal_of_the_chain_stands(entries, more.drop_last(), config);
        assert((entries + more).drop_last() =~= entries + more.drop_last());
    }
}

} // verus!
