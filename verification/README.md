# ahl-mirror

An independent mirror of an append-only log. It stores the bytes of log entries exactly as they
were anchored, admits them only on a Merkle inclusion proof under a checkpoint that it has itself
authenticated, and serves them back with proofs: by entry id, as an enumerated range, and as
consistency paths between the checkpoints of the log.

The library under `src/` is written in Verus: what each function does is stated in its contract
and proved. `app/` is the server around it.

## Modules

| module | responsibility |
| --- | --- |
| `primitives`, `json`, `text`, `octets` | hashing, encodings, canonical JSON, signatures and text, with what is taken on trust of the crates behind them |
| `duration`, `timestamp` | cadences and checkpoint times |
| `geometry`, `tree`, `proofs` | the shape of the tree, its stored nodes, and the proofs opened from them |
| `metadata` | the fixed metadata object and the leaf hash of an entry |
| `store`, `series`, `restore` | staged and canonical entries, the checkpoint series, the anchors of rotations, and restoring them from database rows |
| `ingest`, `retrieval`, `range` | staging and promotion, retrieval by id, range enumeration |
| `config`, `statement`, `manifest` | the genesis anchor and the verified governance chain |
| `checkpoint`, `frontier` | admission of checkpoints, their usability, the gap-free frontier and incorporation bounds |
| `service` | what the routes serve and refuse |

## What is proved

* Staging claims no position, and nothing becomes canonical without an inclusion proof of exactly
  its bytes at exactly its index.
* The log only grows, a refused request changes nothing, and what was promoted is retrieved byte
  for byte.
* Governance follows authentic statements of the supported revision only, along one chain from
  the configured genesis manifest.
* A checkpoint is admitted as a member of the series, as the anchor of exactly the rotations whose
  retired keys signed it, or as both; the earliest anchor is served, whatever order they come in.
* No root that was ever admitted for a size is forgotten, so every contradiction is reported, also
  one by an anchor that an earlier anchor supersedes.
* Usable members are checkpoints of this log. The frontier ends the longest run of them that is
  free of gaps at the declared cadence, and an incorporation bound is the tightest member within
  it. Nothing is served at or beyond a size at which the log contradicted itself.
* A built range response verifies, a changed one does not unless a digest collides, and a rotation
  proof opens its own checkpoint.
* Checkpoint times order as their texts.

## Running

```bash
ahl-mirror --config mirror.json --listen 127.0.0.1:8080
```

```json
{
  "log_id": "sha256:<hex>",
  "genesis_manifest_entry_id": "sha256:<hex>",
  "genesis_producer_keys": [
    { "key_id": "sha256:<hex>", "pubkey": "base64:<32 raw bytes>", "valid_from_index": 0 }
  ],
  "store_path": "/var/lib/ahl-mirror/mirror.sqlite3"
}
```

| method | path | purpose |
| --- | --- | --- |
| `POST` | `/v1/entries/stage` | stage one entry |
| `POST` | `/v1/entries/promote` | promote a staged entry under an admitted checkpoint |
| `GET` | `/v1/entries/{entry_id}` | retrieval by entry id; `?encoding=base64` for the text form |
| `POST` | `/v1/range` | range enumeration under a usable checkpoint |
| `POST` | `/v1/checkpoints` | admit a checkpoint, with entries to promote alongside it |
| `GET` | `/v1/checkpoints` | every authenticated checkpoint with its state |
| `GET` | `/v1/checkpoints/{tree_size}` | the latest checkpoint of a size with its state |
| `GET` | `/v1/rotation-proofs/{manifest_entry_index}` | the proof that a rotation was anchored |
| `GET` | `/v1/itub/{index}` | the incorporation bound of an index |
| `GET` | `/v1/consistency?from=&to=` | a consistency path between two usable checkpoints |
| `GET` | `/health` | liveness |
