//! Deployment configuration: the log a mirror serves and the genesis governance anchor.

use vstd::prelude::*;

use crate::error::{gives, refuses, Fault, MirrorError, MirrorResult};
use crate::primitives::{decode_pubkey, family_text, hash_text, pubkey_octets, sha256};
use crate::text::same_text;

verus! {

/// A key object as configured or declared: `{key_id, pubkey, valid_from_index}`.
#[derive(Debug)]
pub struct KeyObjectSpec {
    /// `sha256:<hex of SHA-256 over the raw 32-byte public key>`.
    pub key_id: String,
    /// `base64:<raw 32-byte Ed25519 public key>`.
    pub pubkey: String,
    /// The entry index from which this key is valid.
    pub valid_from_index: u64,
}

/// A [`KeyObjectSpec`] with its texts as sequences.
pub ghost struct KeySpecView {
    pub key_id: Seq<char>,
    pub pubkey: Seq<char>,
    pub valid_from_index: u64,
}

impl View for KeyObjectSpec {
    type V = KeySpecView;

    open spec fn view(&self) -> KeySpecView {
        KeySpecView {
            key_id: self.key_id@,
            pubkey: self.pubkey@,
            valid_from_index: self.valid_from_index,
        }
    }
}

/// A key object, self-checked once: its key id is the one recomputed from its public key.
#[derive(Debug)]
pub struct ResolvedKeyObject {
    /// The key's id.
    pub key_id: String,
    /// The raw Ed25519 public key.
    pub verifying_key: [u8; 32],
    /// The public key as it was written.
    pub pubkey: String,
    /// The entry index from which this key is valid.
    pub valid_from_index: u64,
}

/// A [`ResolvedKeyObject`] with its texts as sequences.
pub ghost struct KeyView {
    pub key_id: Seq<char>,
    pub verifying_key: Seq<u8>,
    pub pubkey: Seq<char>,
    pub valid_from_index: u64,
}

impl View for ResolvedKeyObject {
    type V = KeyView;

    open spec fn view(&self) -> KeyView {
        KeyView {
            key_id: self.key_id@,
            verifying_key: self.verifying_key@,
            pubkey: self.pubkey@,
            valid_from_index: self.valid_from_index,
        }
    }
}

impl Clone for ResolvedKeyObject {
    fn clone(&self) -> (copy: Self)
        ensures
            copy@ == self@,
    {
        ResolvedKeyObject {
            key_id: self.key_id.clone(),
            verifying_key: self.verifying_key,
            pubkey: self.pubkey.clone(),
            valid_from_index: self.valid_from_index,
        }
    }
}

/// What a key object resolves to: refused where the public key is malformed, and where the key
/// id is not the one recomputed from it.
pub open spec fn resolved_key(spec: KeySpecView) -> Result<KeyView, Fault> {
    match pubkey_octets(spec.pubkey) {
        None => Err(Fault::Ahl),
        Some(raw) => if family_text(sha256(raw)) != spec.key_id {
            Err(
                Fault::ConfigKeyIdMismatch {
                    configured: spec.key_id,
                    computed: family_text(sha256(raw)),
                },
            )
        } else {
            Ok(
                KeyView {
                    key_id: spec.key_id,
                    verifying_key: raw,
                    pubkey: spec.pubkey,
                    valid_from_index: spec.valid_from_index,
                },
            )
        },
    }
}

/// What a list of key objects resolves to: every key, or the refusal of the first that fails.
pub open spec fn resolved_keys(specs: Seq<KeySpecView>) -> Result<Seq<KeyView>, Fault>
    decreases specs.len(),
{
    if specs.len() == 0 {
        Ok(Seq::empty())
    } else {
        match resolved_keys(specs.drop_last()) {
            Err(fault) => Err(fault),
            Ok(keys) => match resolved_key(specs.last()) {
                Err(fault) => Err(fault),
                Ok(key) => Ok(keys.push(key)),
            },
        }
    }
}

/// A list of key objects by their views.
pub open spec fn specs_view(specs: Seq<KeyObjectSpec>) -> Seq<KeySpecView> {
    Seq::new(specs.len(), |i: int| specs[i]@)
}

/// A list of resolved keys by their views.
pub open spec fn keys_view(keys: Seq<ResolvedKeyObject>) -> Seq<KeyView> {
    Seq::new(keys.len(), |i: int| keys[i]@)
}

impl ResolvedKeyObject {
    /// Resolve and self-check a key object.
    pub fn resolve(spec: &KeyObjectSpec) -> (resolved: MirrorResult<Self>)
        ensures
            match resolved {
                Ok(key) => gives(resolved_key(spec@), key@),
                Err(error) => refuses(resolved_key(spec@), error),
            },
    {
        let verifying_key: [u8; 32] = match decode_pubkey(spec.pubkey.as_str()) {
            Ok(key) => key,
            Err(error) => {
                return Err(MirrorError::Ahl(error));
            },
        };
        let computed: String = hash_text(&atl_core::compute_key_id(&verifying_key));
        if !same_text(computed.as_str(), spec.key_id.as_str()) {
            return Err(
                MirrorError::ConfigKeyIdMismatch { configured: spec.key_id.clone(), computed },
            );
        }
        Ok(
            ResolvedKeyObject {
                key_id: spec.key_id.clone(),
                verifying_key,
                pubkey: spec.pubkey.clone(),
                valid_from_index: spec.valid_from_index,
            },
        )
    }
}

/// Deployment configuration as loaded.
#[derive(Debug)]
pub struct ConfigSpec {
    /// `sha256:<hex of the Origin ID>`: the one log this mirror is bound to.
    pub log_id: String,
    /// The entry id of the trusted genesis manifest.
    pub genesis_manifest_entry_id: String,
    /// The producer keys trusted to have signed the genesis manifest, one or more.
    pub genesis_producer_keys: Vec<KeyObjectSpec>,
    /// Filesystem path to the store.
    pub store_path: String,
}

/// Configuration with every key checked once.
#[derive(Debug)]
pub struct Config {
    /// The one log this mirror is bound to.
    pub log_id: String,
    /// The entry id of the trusted genesis manifest.
    pub genesis_manifest_entry_id: String,
    /// The resolved genesis producer keys.
    pub genesis_producer_keys: Vec<ResolvedKeyObject>,
    /// Filesystem path to the store.
    pub store_path: String,
}

/// A [`Config`] with its texts and lists as sequences.
pub ghost struct ConfigView {
    pub log_id: Seq<char>,
    pub genesis_manifest_entry_id: Seq<char>,
    pub genesis_producer_keys: Seq<KeyView>,
    pub store_path: Seq<char>,
}

impl View for Config {
    type V = ConfigView;

    open spec fn view(&self) -> ConfigView {
        ConfigView {
            log_id: self.log_id@,
            genesis_manifest_entry_id: self.genesis_manifest_entry_id@,
            genesis_producer_keys: keys_view(self.genesis_producer_keys@),
            store_path: self.store_path@,
        }
    }
}

/// What a configuration resolves to: refused without a genesis producer key, and with the
/// refusal of the first key that fails.
pub open spec fn resolved_config(spec: ConfigSpec) -> Result<ConfigView, Fault> {
    if spec.genesis_producer_keys@.len() == 0 {
        Err(Fault::NoGenesisProducerKeys)
    } else {
        match resolved_keys(specs_view(spec.genesis_producer_keys@)) {
            Err(fault) => Err(fault),
            Ok(keys) => Ok(
                ConfigView {
                    log_id: spec.log_id@,
                    genesis_manifest_entry_id: spec.genesis_manifest_entry_id@,
                    genesis_producer_keys: keys,
                    store_path: spec.store_path@,
                },
            ),
        }
    }
}

/// A refusal within a list is the refusal of the whole list.
proof fn first_refusal_stands(specs: Seq<KeySpecView>, count: int)
    requires
        0 <= count <= specs.len(),
        resolved_keys(specs.take(count)) is Err,
    ensures
        resolved_keys(specs) == resolved_keys(specs.take(count)),
    decreases specs.len(),
{
    if count < specs.len() {
        assert(specs.drop_last().take(count) =~= specs.take(count));
        first_refusal_stands(specs.drop_last(), count);
    } else {
        assert(specs.take(count) =~= specs);
    }
}

/// Resolve every key of a list.
pub fn resolve_keys(specs: &Vec<KeyObjectSpec>) -> (resolved: MirrorResult<Vec<ResolvedKeyObject>>)
    ensures
        match resolved {
            Ok(keys) => gives(resolved_keys(specs_view(specs@)), keys_view(keys@)),
            Err(error) => refuses(resolved_keys(specs_view(specs@)), error),
        },
{
    let ghost listed = specs_view(specs@);
    let mut keys: Vec<ResolvedKeyObject> = Vec::new();
    let mut i: usize = 0;
    assert(keys_view(keys@) =~= Seq::<KeyView>::empty());
    while i < specs.len()
        invariant
            i <= specs@.len(),
            listed == specs_view(specs@),
            gives(resolved_keys(listed.take(i as int)), keys_view(keys@)),
        decreases specs.len() - i,
    {
        proof {
            assert(listed.take(i + 1).drop_last() =~= listed.take(i as int));
            assert(listed.take(i + 1).last() == specs@[i as int]@);
        }
        match ResolvedKeyObject::resolve(&specs[i]) {
            Ok(key) => {
                let ghost before = keys_view(keys@);
                keys.push(key);
                assert(keys_view(keys@) =~= before.push(key@));
            },
            Err(error) => {
                proof {
                    first_refusal_stands(listed, i + 1);
                }
                return Err(error);
            },
        }
        i += 1;
    }
    assert(listed.take(i as int) =~= listed);
    Ok(keys)
}

impl Config {
    /// Resolve a [`ConfigSpec`], checking every key id against its public key.
    pub fn resolve(spec: &ConfigSpec) -> (resolved: MirrorResult<Self>)
        ensures
            match resolved {
                Ok(config) => gives(resolved_config(*spec), config@),
                Err(error) => refuses(resolved_config(*spec), error),
            },
    {
        if spec.genesis_producer_keys.len() == 0 {
            return Err(MirrorError::NoGenesisProducerKeys);
        }
        match resolve_keys(&spec.genesis_producer_keys) {
            Err(error) => Err(error),
            Ok(genesis_producer_keys) => Ok(
                Config {
                    log_id: spec.log_id.clone(),
                    genesis_manifest_entry_id: spec.genesis_manifest_entry_id.clone(),
                    genesis_producer_keys,
                    store_path: spec.store_path.clone(),
                },
            ),
        }
    }
}

/// A key object resolves exactly where its public key is well-formed and its id is the one
/// recomputed from it, and it resolves to what it says and that key.
pub proof fn a_key_resolves_where_its_id_is_its_own(spec: KeySpecView)
    ensures
        match resolved_key(spec) {
            Ok(key) => {
                &&& pubkey_octets(spec.pubkey) == Some(key.verifying_key)
                &&& spec.key_id == family_text(sha256(key.verifying_key))
                &&& key.key_id == spec.key_id
                &&& key.pubkey == spec.pubkey
                &&& key.valid_from_index == spec.valid_from_index
            },
            Err(fault) => match pubkey_octets(spec.pubkey) {
                None => fault == Fault::Ahl,
                Some(raw) => spec.key_id != family_text(sha256(raw)) && fault == (
                Fault::ConfigKeyIdMismatch {
                    configured: spec.key_id,
                    computed: family_text(sha256(raw)),
                }),
            },
        },
{
}

/// A list of key objects resolves exactly where every one of them does, each to its own key in its
/// own place; else it is refused with the refusal of the first that does not.
pub proof fn keys_resolve_one_by_one(specs: Seq<KeySpecView>)
    ensures
        match resolved_keys(specs) {
            Ok(keys) => keys.len() == specs.len() && forall|i: int|
                0 <= i < specs.len() ==> resolved_key(#[trigger] specs[i]) == Ok::<KeyView, Fault>(
                    keys[i],
                ),
            Err(fault) => exists|i: int|
                0 <= i < specs.len() && resolved_key(#[trigger] specs[i]) == Err::<KeyView, Fault>(
                    fault,
                ) && forall|j: int| 0 <= j < i ==> resolved_key(#[trigger] specs[j]) is Ok,
        },
    decreases specs.len(),
{
    if specs.len() > 0 {
        let rest = specs.drop_last();
        let at = specs.len() - 1;
        keys_resolve_one_by_one(rest);
        assert forall|i: int| 0 <= i < rest.len() implies #[trigger] specs[i] == rest[i] by {}
        match resolved_keys(rest) {
            Err(fault) => {
                let i = choose|i: int|
                    0 <= i < rest.len() && resolved_key(#[trigger] rest[i]) == Err::<
                        KeyView,
                        Fault,
                    >(fault) && forall|j: int|
                        0 <= j < i ==> resolved_key(#[trigger] rest[j]) is Ok;
                assert(resolved_key(specs[i]) == Err::<KeyView, Fault>(fault));
                assert forall|j: int| 0 <= j < i implies resolved_key(#[trigger] specs[j]) is Ok by {
                    assert(specs[j] == rest[j]);
                }
            },
            Ok(keys) => {
                if let Err(fault) = resolved_key(specs.last()) {
                    assert(resolved_key(specs[at]) == Err::<KeyView, Fault>(fault));
                    assert forall|j: int| 0 <= j < at implies resolved_key(
                        #[trigger] specs[j],
                    ) is Ok by {
                        assert(specs[j] == rest[j]);
                    }
                }
            },
        }
    }
}

/// A configuration resolves exactly where it lists a genesis producer key and every one of them
/// resolves; it keeps what it says, and the keys in the order listed.
pub proof fn a_configuration_resolves_to_what_it_says(spec: ConfigSpec)
    ensures
        match resolved_config(spec) {
            Ok(config) => {
                &&& config.log_id == spec.log_id@
                &&& config.genesis_manifest_entry_id == spec.genesis_manifest_entry_id@
                &&& config.store_path == spec.store_path@
                &&& spec.genesis_producer_keys@.len() > 0
                &&& config.genesis_producer_keys.len() == spec.genesis_producer_keys@.len()
                &&& forall|i: int|
                    0 <= i < config.genesis_producer_keys.len() ==> resolved_key(
                        spec.genesis_producer_keys@[i]@,
                    ) == Ok::<KeyView, Fault>(#[trigger] config.genesis_producer_keys[i])
            },
            Err(fault) => (spec.genesis_producer_keys@.len() == 0 && fault
                == Fault::NoGenesisProducerKeys) || exists|i: int|
                0 <= i < spec.genesis_producer_keys@.len() && resolved_key(
                    (#[trigger] spec.genesis_producer_keys@[i])@,
                ) == Err::<KeyView, Fault>(fault),
        },
{
    let specs = specs_view(spec.genesis_producer_keys@);
    keys_resolve_one_by_one(specs);
    match resolved_keys(specs) {
        Ok(keys) => {
            assert forall|i: int| 0 <= i < keys.len() implies resolved_key(
                spec.genesis_producer_keys@[i]@,
            ) == Ok::<KeyView, Fault>(#[trigger] keys[i]) by {
                assert(resolved_key(specs[i]) == Ok::<KeyView, Fault>(keys[i]));
            }
        },
        Err(fault) => {
            let i = choose|i: int|
                0 <= i < specs.len() && resolved_key(#[trigger] specs[i]) == Err::<KeyView, Fault>(
                    fault,
                ) && forall|j: int| 0 <= j < i ==> resolved_key(#[trigger] specs[j]) is Ok;
            assert(specs[i] == spec.genesis_producer_keys@[i]@);
        },
    }
}

} // verus!
