//! The decisions behind each route of the service: what is looked up, what is refused, and
//! with which status.

use vstd::prelude::*;

use crate::checkpoint::Checkpoint;
use crate::config::{Config, ConfigView};
use crate::error::{gives, refuses, Fault, MirrorError, MirrorResult};
use crate::frontier::{
    members_are_the_series, series_view, usable_members_are_genuine, CheckpointState, Member,
    ReportedCheckpoint, SeriesReport, SeriesView,
};
use crate::geometry::{hashes_view, root_of, split, split_is_largest_power_below};
use crate::ingest::promote_entry;
use crate::primitives::{
    a_rendered_hash_parses_back, base64_decode, base64_encode, base64_octets, base64_text,
    family_text, hash_of_text, hash_text,
};
use crate::proofs::{
    an_inclusion_path_opens_the_root, consistency_path, inclusion_path, inclusion_verdict,
    sibling_spans, verify_inclusion, whole_material_opens_consistency, InclusionProof,
};
use crate::series::{
    anchor_for, comes_before, latest_at, order_is_total,
    the_latest_member_has_the_greatest_time, CheckpointView,
};
use crate::store::{leaves_of, InsertOutcome, Store, StoreView};
use crate::text::{join, starts_with, strip_prefix, text_before, texts_view};
use crate::tree::{complete_nodes, whole_material_has_no_gap, TreeView, MAX_LEAVES};

verus! {

// ---- statuses ----

/// The HTTP status of a refusal: 404 for what is not held, 409 for what is held but not
/// established, 500 for a fault of this deployment, 400 for any other.
pub open spec fn status_of_fault(fault: Fault) -> u16 {
    if fault is UnknownCheckpoint || fault is UnknownRotationProof || fault is NotStaged {
        404
    } else if fault is IncompleteEntries || fault is CheckpointNotSeriesUsable
        || fault is SeriesEquivocated {
        409
    } else if fault is StoredEntryCorrupt || fault is TreeMaterialMissing
        || fault is TreeMaterialCorrupt || fault is CheckpointRootMismatch || fault is IndexOverflow
        || fault is Atl || fault is StoreInit {
        500
    } else {
        400
    }
}

/// The HTTP status of an error.
pub fn status_of(error: &MirrorError) -> (status: u16)
    ensures
        status == status_of_fault(error@),
{
    match error {
        MirrorError::UnknownCheckpoint { .. } => 404,
        MirrorError::UnknownRotationProof { .. } => 404,
        MirrorError::NotStaged { .. } => 404,
        MirrorError::IncompleteEntries { .. } => 409,
        MirrorError::CheckpointNotSeriesUsable { .. } => 409,
        MirrorError::SeriesEquivocated { .. } => 409,
        MirrorError::StoredEntryCorrupt { .. } => 500,
        MirrorError::TreeMaterialMissing { .. } => 500,
        MirrorError::TreeMaterialCorrupt { .. } => 500,
        MirrorError::CheckpointRootMismatch { .. } => 500,
        MirrorError::IndexOverflow { .. } => 500,
        MirrorError::Atl(_) => 500,
        MirrorError::StoreInit(_) => 500,
        _ => 400,
    }
}

/// The HTTP status of storing something: 201 where it is new, 200 where it was there.
pub fn stored_status(outcome: InsertOutcome) -> (status: u16)
    ensures
        status == (match outcome {
            InsertOutcome::Inserted => 201u16,
            InsertOutcome::AlreadyPresent => 200u16,
        }),
{
    match outcome {
        InsertOutcome::Inserted => 201,
        InsertOutcome::AlreadyPresent => 200,
    }
}

/// What is said of a staged entry.
pub fn staged_word(outcome: InsertOutcome) -> (word: &'static str)
    ensures
        word@ == (match outcome {
            InsertOutcome::Inserted => "staged"@,
            InsertOutcome::AlreadyPresent => "already_staged"@,
        }),
{
    match outcome {
        InsertOutcome::Inserted => "staged",
        InsertOutcome::AlreadyPresent => "already_staged",
    }
}

// ---- base64 fields ----

/// The bytes of a `base64:` field.
pub open spec fn field_octets(value: Seq<char>) -> Option<Seq<u8>> {
    if starts_with(value, "base64:"@) {
        base64_octets(value.skip("base64:"@.len() as int))
    } else {
        None
    }
}

/// Read a `base64:` field; a malformed one is refused with the reason given.
pub fn decode_base64_field(value: &str, reason: &'static str) -> (decoded: MirrorResult<Vec<u8>>)
    ensures
        match decoded {
            Ok(bytes) => field_octets(value@) == Some(bytes@),
            Err(error) => field_octets(value@) is None && error@ == (Fault::MalformedEnvelope {
                reason: reason@,
            }),
        },
{
    match strip_prefix(value, "base64:") {
        None => Err(MirrorError::MalformedEnvelope { reason }),
        Some(text) => match base64_decode(text) {
            Some(bytes) => Ok(bytes),
            None => Err(MirrorError::MalformedEnvelope { reason }),
        },
    }
}

/// Bytes as a `base64:` field, which reads back as the bytes.
pub fn encode_base64_field(bytes: &[u8]) -> (value: String)
    ensures
        value@ == "base64:"@ + base64_text(bytes@),
        field_octets(value@) == Some(bytes@),
{
    let text: String = base64_encode(bytes);
    let value: String = join("base64:", text.as_str());
    proof {
        assert(value@.take("base64:"@.len() as int) =~= "base64:"@);
        assert(value@.skip("base64:"@.len() as int) =~= text@);
    }
    value
}

// ---- promotion ----

impl StoreView {
    /// Promoting an entry under the latest checkpoint of a size.
    pub open spec fn promoting_under(
        self,
        tree_size: u64,
        entry_id: Seq<char>,
        index: u64,
        texts: Seq<Seq<char>>,
    ) -> Result<(StoreView, InsertOutcome), Fault> {
        if tree_size > MAX_LEAVES {
            Err(Fault::IndexOverflow { what: "tree_size"@ })
        } else {
            match latest_at(self.checkpoints, tree_size) {
                None => Err(Fault::UnknownCheckpoint { tree_size }),
                Some(cp) => self.proving(cp, entry_id, index, texts),
            }
        }
    }
}

/// Promote a staged entry on a proof under the latest checkpoint of a size.
pub fn promote_under(
    store: &mut Store,
    tree_size: u64,
    entry_id: &str,
    leaf_index: u64,
    inclusion_path: &Vec<String>,
) -> (promoted: MirrorResult<InsertOutcome>)
    requires
        old(store).wf(),
    ensures
        final(store).wf(),
        match promoted {
            Ok(done) => gives(
                old(store)@.promoting_under(
                    tree_size,
                    entry_id@,
                    leaf_index,
                    texts_view(inclusion_path@),
                ),
                (final(store)@, done),
            ),
            Err(error) => refuses(
                old(store)@.promoting_under(
                    tree_size,
                    entry_id@,
                    leaf_index,
                    texts_view(inclusion_path@),
                ),
                error,
            ) && final(store)@ == old(store)@,
        },
{
    match store.get_checkpoint(tree_size)? {
        None => Err(MirrorError::UnknownCheckpoint { tree_size }),
        Some(checkpoint) => promote_entry(store, &checkpoint, entry_id, leaf_index, inclusion_path),
    }
}

// ---- lookups in the series ----

/// The first usable member of a size.
pub open spec fn first_usable_at(members: Seq<Member>, tree_size: u64) -> Option<CheckpointView>
    decreases members.len(),
{
    if members.len() == 0 {
        None
    } else if members[0].0.tree_size == tree_size && members[0].1 == CheckpointState::SeriesUsable {
        Some(members[0].0)
    } else {
        first_usable_at(members.drop_first(), tree_size)
    }
}

/// Whether there is a member of a size.
pub open spec fn has_size(members: Seq<Member>, tree_size: u64) -> bool {
    exists|i: int| 0 <= i < members.len() && (#[trigger] members[i]).0.tree_size == tree_size
}

/// The checkpoint that an enumeration or a consistency proof at a size is grounded on. A size
/// at or beyond the floor is refused first, whatever is held there.
pub open spec fn grounded(report: SeriesReport, tree_size: u64) -> Result<CheckpointView, Fault> {
    match report.equivocation_floor {
        Some(floor) if tree_size >= floor => Err(Fault::SeriesEquivocated { tree_size, floor }),
        _ => if !has_size(report.members, tree_size) {
            Err(Fault::UnknownCheckpoint { tree_size })
        } else {
            match first_usable_at(report.members, tree_size) {
                None => Err(Fault::CheckpointNotSeriesUsable { tree_size }),
                Some(cp) => Ok(cp),
            }
        },
    }
}

/// Pick the checkpoint that a claim at a size is grounded on.
pub fn ground(view: &SeriesView, tree_size: u64) -> (picked: MirrorResult<Checkpoint>)
    ensures
        match picked {
            Ok(cp) => gives(grounded(view@, tree_size), cp@),
            Err(error) => refuses(grounded(view@, tree_size), error),
        },
{
    if let Some(floor) = view.equivocation_floor {
        if tree_size >= floor {
            return Err(MirrorError::SeriesEquivocated { tree_size, floor });
        }
    }
    let ghost members = view@.members;
    let mut seen: bool = false;
    let mut i: usize = 0;
    assert(members.skip(0) =~= members);
    while i < view.members.len()
        invariant
            i <= view.members@.len(),
            members == view@.members,
            members.len() == view.members@.len(),
            forall|k: int|
                0 <= k < members.len() ==> #[trigger] members[k] == (
                    view.members@[k].checkpoint@,
                    view.members@[k].state,
                ),
            view.equivocation_floor matches Some(floor) ==> tree_size < floor,
            seen == exists|k: int|
                0 <= k < i && (#[trigger] members[k]).0.tree_size == tree_size,
            first_usable_at(members, tree_size) == first_usable_at(
                members.skip(i as int),
                tree_size,
            ),
        decreases view.members.len() - i,
    {
        let member: &ReportedCheckpoint = &view.members[i];
        proof {
            assert(members.skip(i as int).drop_first() =~= members.skip(i + 1));
            assert(members.skip(i as int)[0] == members[i as int]);
        }
        if member.checkpoint.tree_size == tree_size {
            seen = true;
            assert(members[i as int].0.tree_size == tree_size);
            if member.state == CheckpointState::SeriesUsable {
                return Ok(member.checkpoint.clone());
            }
        }
        i += 1;
    }
    if seen {
        Err(MirrorError::CheckpointNotSeriesUsable { tree_size })
    } else {
        Err(MirrorError::UnknownCheckpoint { tree_size })
    }
}

impl StoreView {
    /// The checkpoint that a claim at a size is grounded on.
    pub open spec fn grounding(self, config: ConfigView, tree_size: u64) -> Result<
        CheckpointView,
        Fault,
    > {
        match self.series(config) {
            Err(fault) => Err(fault),
            Ok(report) => grounded(report, tree_size),
        }
    }
}

/// The usable checkpoint of a size, or why there is none to ground a claim on.
pub fn series_usable_checkpoint(store: &Store, config: &Config, tree_size: u64) -> (found:
    MirrorResult<Checkpoint>)
    requires
        store.wf(),
    ensures
        match found {
            Ok(cp) => gives(store@.grounding(config@, tree_size), cp@),
            Err(error) => refuses(store@.grounding(config@, tree_size), error),
        },
{
    let view: SeriesView = series_view(store, config)?;
    ground(&view, tree_size)
}

/// The last member of a size: with the series in order, the one with the latest time.
pub open spec fn last_at(members: Seq<Member>, tree_size: u64) -> Option<Member>
    decreases members.len(),
{
    if members.len() == 0 {
        None
    } else if members.last().0.tree_size == tree_size {
        Some(members.last())
    } else {
        last_at(members.drop_last(), tree_size)
    }
}

/// The member of a size that a lookup reports; at or beyond the floor no branch is chosen.
pub open spec fn looked_up(report: SeriesReport, tree_size: u64) -> Result<Member, Fault> {
    match report.equivocation_floor {
        Some(floor) if tree_size >= floor => Err(Fault::SeriesEquivocated { tree_size, floor }),
        _ => match last_at(report.members, tree_size) {
            None => Err(Fault::UnknownCheckpoint { tree_size }),
            Some(member) => Ok(member),
        },
    }
}

/// Look up the latest member of a size with its state.
pub fn look_up(view: &SeriesView, tree_size: u64) -> (found: MirrorResult<ReportedCheckpoint>)
    ensures
        match found {
            Ok(member) => gives(
                looked_up(view@, tree_size),
                (member.checkpoint@, member.state),
            ),
            Err(error) => refuses(looked_up(view@, tree_size), error),
        },
{
    if let Some(floor) = view.equivocation_floor {
        if tree_size >= floor {
            return Err(MirrorError::SeriesEquivocated { tree_size, floor });
        }
    }
    let ghost members = view@.members;
    let mut i: usize = view.members.len();
    assert(members.take(i as int) =~= members);
    while i > 0
        invariant
            i <= view.members@.len(),
            members == view@.members,
            members.len() == view.members@.len(),
            forall|k: int|
                0 <= k < members.len() ==> #[trigger] members[k] == (
                    view.members@[k].checkpoint@,
                    view.members@[k].state,
                ),
            view.equivocation_floor matches Some(floor) ==> tree_size < floor,
            last_at(members, tree_size) == last_at(members.take(i as int), tree_size),
        decreases i,
    {
        let member: &ReportedCheckpoint = &view.members[i - 1];
        proof {
            assert(members.take(i as int).drop_last() =~= members.take(i - 1));
            assert(members.take(i as int).last() == members[i - 1]);
        }
        if member.checkpoint.tree_size == tree_size {
            return Ok(
                ReportedCheckpoint { checkpoint: member.checkpoint.clone(), state: member.state },
            );
        }
        i -= 1;
    }
    Err(MirrorError::UnknownCheckpoint { tree_size })
}

/// The latest member of a size with its state.
pub fn reported_checkpoint(store: &Store, config: &Config, tree_size: u64) -> (found: MirrorResult<
    ReportedCheckpoint,
>)
    requires
        store.wf(),
    ensures
        match found {
            Ok(member) => store@.series(config@) is Ok && gives(
                looked_up(store@.series(config@)->Ok_0, tree_size),
                (member.checkpoint@, member.state),
            ),
            Err(error) => refuses(store@.series(config@), error) || (store@.series(config@) is Ok
                && refuses(looked_up(store@.series(config@)->Ok_0, tree_size), error)),
        },
{
    let view: SeriesView = series_view(store, config)?;
    look_up(&view, tree_size)
}

// ---- proofs ----

/// A list of hashes as `sha256:<hex>` texts.
pub open spec fn hash_texts(hashes: Seq<Seq<u8>>) -> Seq<Seq<char>> {
    Seq::new(hashes.len(), |i: int| family_text(hashes[i]))
}

/// Render a list of hashes as texts.
fn render_hashes(hashes: &Vec<[u8; 32]>) -> (texts: Vec<String>)
    ensures
        texts_view(texts@) == hash_texts(hashes_view(hashes@)),
{
    let mut texts: Vec<String> = Vec::new();
    let mut i: usize = 0;
    while i < hashes.len()
        invariant
            i <= hashes@.len(),
            texts_view(texts@) == hash_texts(hashes_view(hashes@)).take(i as int),
        decreases hashes.len() - i,
    {
        let text: String = hash_text(&hashes[i]);
        let ghost before = texts_view(texts@);
        texts.push(text);
        proof {
            assert(texts_view(texts@) =~= before.push(text@));
            assert(hash_texts(hashes_view(hashes@)).take(i + 1) =~= before.push(text@));
        }
        i += 1;
    }
    assert(texts_view(texts@) =~= hash_texts(hashes_view(hashes@)));
    texts
}

impl StoreView {
    /// The consistency path between two sizes that both ground a claim; which of them does not is
    /// told first. The sizes the wrong way round are the caller's error; of one size to itself
    /// the path is empty.
    pub open spec fn linking(self, config: ConfigView, from: u64, to: u64) -> Result<
        Seq<Seq<char>>,
        Fault,
    > {
        match self.grounding(config, from) {
            Err(fault) => Err(fault),
            Ok(_) => match self.grounding(config, to) {
                Err(fault) => Err(fault),
                Ok(_) => if from > to {
                    Err(Fault::ConsistencyOrder { from, to })
                } else {
                    match self.link(from, to) {
                        Err(fault) => Err(fault),
                        Ok(path) => Ok(hash_texts(path)),
                    }
                },
            },
        }
    }
}

/// The consistency path between two usable members of the series, as texts.
pub fn consistency_between(store: &Store, config: &Config, from: u64, to: u64) -> (path: MirrorResult<
    Vec<String>,
>)
    requires
        store.wf(),
    ensures
        match path {
            Ok(texts) => gives(store@.linking(config@, from, to), texts_view(texts@)),
            Err(error) => refuses(store@.linking(config@, from, to), error),
        },
{
    let _ = series_usable_checkpoint(store, config, from)?;
    let _ = series_usable_checkpoint(store, config, to)?;
    if from > to {
        return Err(MirrorError::ConsistencyOrder { from, to });
    }
    let opened: crate::proofs::ConsistencyProof = store.consistency_proof(from, to)?;
    Ok(render_hashes(&opened.path))
}

/// That a rotation was anchored: the rotating manifest's entry index, a checkpoint signed by the
/// keys it retires, and the inclusion path of the manifest under that checkpoint.
#[derive(Debug)]
pub struct RotationProofElement {
    /// The entry index of the rotating manifest.
    pub manifest_entry_index: u64,
    /// The checkpoint that anchors the rotation.
    pub checkpoint: Checkpoint,
    /// The inclusion path of the manifest under the checkpoint's root, as texts. Cosignatures
    /// of witnesses go beside it; a mirror holds none.
    pub inclusion_path: Vec<String>,
}

impl StoreView {
    /// The rotation proof for a manifest entry index, or why there is none: no anchor is held,
    /// the anchor is at or beyond the floor, the entries do not reach it, the manifest is not
    /// below it, a tree node is lost, or its root is not that of the entries.
    pub open spec fn rotation_proof(self, config: ConfigView, index: u64) -> Result<
        (CheckpointView, Seq<Seq<char>>),
        Fault,
    > {
        if index > MAX_LEAVES {
            Err(Fault::IndexOverflow { what: "manifest_entry_index"@ })
        } else {
            match anchor_for(self.anchors, index) {
                None => Err(Fault::UnknownRotationProof { manifest_entry_index: index }),
                Some(cp) => match self.series(config) {
                    Err(fault) => Err(fault),
                    Ok(report) => match report.equivocation_floor {
                        Some(floor) if cp.tree_size >= floor => Err(
                            Fault::SeriesEquivocated { tree_size: cp.tree_size, floor },
                        ),
                        _ => self.opened_rotation(cp, index),
                    },
                },
            }
        }
    }

    /// The inclusion path of a manifest under the checkpoint that anchors its rotation.
    pub open spec fn opened_rotation(self, cp: CheckpointView, index: u64) -> Result<
        (CheckpointView, Seq<Seq<char>>),
        Fault,
    > {
        if cp.tree_size > MAX_LEAVES {
            Err(Fault::IndexOverflow { what: "to_index"@ })
        } else if cp.tree_size > self.entries.len() {
            Err(
                Fault::IncompleteEntries {
                    have: self.entries.len() as u64,
                    need: cp.tree_size,
                },
            )
        } else {
            match self.tree.included(index as nat, cp.tree_size as nat) {
                Err(fault) => Err(fault),
                Ok(path) => match hash_of_text(cp.root_hash) {
                    None => Err(Fault::Ahl),
                    Some(root) => if root == root_of(
                        leaves_of(self.entries).take(cp.tree_size as int),
                    ) {
                        Ok((cp, hash_texts(path)))
                    } else {
                        Err(Fault::CheckpointRootMismatch { tree_size: cp.tree_size })
                    },
                },
            }
        }
    }
}

/// Open the inclusion path of a manifest under the checkpoint that anchors its rotation. The
/// path is verified against the checkpoint's root before it is handed out.
fn open_rotation(store: &Store, checkpoint: Checkpoint, manifest_entry_index: u64) -> (opened:
    MirrorResult<RotationProofElement>)
    requires
        store.wf(),
        manifest_entry_index <= MAX_LEAVES,
    ensures
        match opened {
            Ok(element) => element.manifest_entry_index == manifest_entry_index && gives(
                store@.opened_rotation(checkpoint@, manifest_entry_index),
                (element.checkpoint@, texts_view(element.inclusion_path@)),
            ),
            Err(error) => refuses(
                store@.opened_rotation(checkpoint@, manifest_entry_index),
                error,
            ),
        },
{
    let tree_size: u64 = checkpoint.tree_size;
    proof {
        store.is_valid();
        assert(leaves_of(store@.entries).len() == store@.entries.len());
    }
    let have: u64 = store.count_entries(0, tree_size)?;
    if have != tree_size {
        return Err(MirrorError::IncompleteEntries { have, need: tree_size });
    }
    let included: InclusionProof = store.inclusion_proof(manifest_entry_index, tree_size)?;
    let root: [u8; 32] = match ahl_core::parse_hash_hex(checkpoint.root_hash.as_str()) {
        Ok(root) => root,
        Err(error) => {
            return Err(MirrorError::Ahl(error));
        },
    };
    let ghost leaves = leaves_of(store@.entries).take(tree_size as int);
    proof {
        assert(manifest_entry_index < tree_size);
        an_inclusion_path_opens_the_root(leaves, manifest_entry_index as nat, root@);
    }
    let leaf: [u8; 32] = match store.tree_node(0, manifest_entry_index) {
        Some(leaf) => leaf,
        None => {
            return Err(
                MirrorError::TreeMaterialMissing { level: 0, node_index: manifest_entry_index },
            );
        },
    };
    proof {
        crate::geometry::span_root_of_one(
            leaves_of(store@.entries),
            manifest_entry_index as nat,
        );
        assert(crate::geometry::width(0) == 1);
        assert(manifest_entry_index * 1 == manifest_entry_index);
        assert(leaf@ == leaves[manifest_entry_index as int]);
    }
    match verify_inclusion(&leaf, manifest_entry_index, tree_size, &included.path, &root) {
        Err(error) => Err(MirrorError::Atl(error)),
        Ok(opens) => {
            if !opens {
                return Err(MirrorError::CheckpointRootMismatch { tree_size });
            }
            Ok(
                RotationProofElement {
                    manifest_entry_index,
                    checkpoint,
                    inclusion_path: render_hashes(&included.path),
                },
            )
        },
    }
}

/// Assemble the rotation proof for a manifest entry index.
pub fn rotation_proof_element(store: &Store, config: &Config, manifest_entry_index: u64) -> (element:
    MirrorResult<RotationProofElement>)
    requires
        store.wf(),
    ensures
        match element {
            Ok(e) => e.manifest_entry_index == manifest_entry_index && gives(
                store@.rotation_proof(config@, manifest_entry_index),
                (e.checkpoint@, texts_view(e.inclusion_path@)),
            ),
            Err(error) => refuses(store@.rotation_proof(config@, manifest_entry_index), error),
        },
{
    let checkpoint: Checkpoint = match store.get_rotation_checkpoint(manifest_entry_index)? {
        Some(checkpoint) => checkpoint,
        None => {
            return Err(MirrorError::UnknownRotationProof { manifest_entry_index });
        },
    };
    let view: SeriesView = series_view(store, config)?;
    if let Some(floor) = view.equivocation_floor {
        if checkpoint.tree_size >= floor {
            return Err(
                MirrorError::SeriesEquivocated { tree_size: checkpoint.tree_size, floor },
            );
        }
    }
    open_rotation(store, checkpoint, manifest_entry_index)
}

// ---- laws ----

/// Equivocation ends the series: at or beyond the lowest size the log contradicted itself at,
/// nothing grounds a claim, no lookup chooses a branch, no consistency path leads there and no
/// rotation proof is opened under a checkpoint there.
pub proof fn nothing_is_served_at_or_beyond_the_floor(
    store: StoreView,
    config: ConfigView,
    tree_size: u64,
    other: u64,
    index: u64,
)
    requires
        store.series(config) matches Ok(report) && (report.equivocation_floor matches Some(floor)
            && tree_size >= floor),
    ensures
        ({
            let report = store.series(config)->Ok_0;
            let fault = Fault::SeriesEquivocated {
                tree_size,
                floor: report.equivocation_floor->0,
            };
            &&& store.grounding(config, tree_size) == Err::<CheckpointView, Fault>(fault)
            &&& looked_up(report, tree_size) == Err::<Member, Fault>(fault)
            &&& store.linking(config, tree_size, other) == Err::<Seq<Seq<char>>, Fault>(fault)
            &&& store.grounding(config, other) is Ok ==> store.linking(config, other, tree_size)
                == Err::<Seq<Seq<char>>, Fault>(fault)
            &&& store.linking(config, other, tree_size) is Err
            &&& (anchor_for(store.anchors, index) matches Some(cp) && cp.tree_size == tree_size)
                ==> store.rotation_proof(config, index) is Err
        }),
{
}

/// The first usable member of a size is one of the members, is of the size and is usable.
proof fn first_usable_is_a_member(members: Seq<Member>, tree_size: u64) -> (at: int)
    requires
        first_usable_at(members, tree_size) is Some,
    ensures
        0 <= at < members.len(),
        members[at].0 == first_usable_at(members, tree_size)->0,
        members[at].0.tree_size == tree_size,
        members[at].1 == CheckpointState::SeriesUsable,
    decreases members.len(),
{
    if members[0].0.tree_size == tree_size && members[0].1 == CheckpointState::SeriesUsable {
        0
    } else {
        let rest = first_usable_is_a_member(members.drop_first(), tree_size);
        assert(members.drop_first()[rest] == members[rest + 1]);
        rest + 1
    }
}

/// What a claim is grounded on is a checkpoint of this log: a member of the series of exactly
/// that size, below the floor, whose root is the root over the entries it commits.
pub proof fn a_claim_is_grounded_on_a_genuine_checkpoint(
    store: StoreView,
    config: ConfigView,
    tree_size: u64,
)
    requires
        store.valid(),
    ensures
        store.grounding(config, tree_size) matches Ok(cp) ==> {
            &&& store.checkpoints.contains(cp)
            &&& cp.tree_size == tree_size
            &&& store.genuine(cp)
            &&& store.series(config)->Ok_0.equivocation_floor matches Some(floor)
                ==> tree_size < floor
        },
{
    if let Ok(cp) = store.grounding(config, tree_size) {
        let members = store.series(config)->Ok_0.members;
        let at = first_usable_is_a_member(members, tree_size);
        members_are_the_series(store, store.checkpoints);
        usable_members_are_genuine(store, store.checkpoints, at);
        assert(store.checkpoints[at] == cp);
    }
}

/// A consistency path is served between two checkpoints of this log only, and is the path
/// between the trees they commit.
pub proof fn a_served_consistency_path_is_between_genuine_checkpoints(
    store: StoreView,
    config: ConfigView,
    from: u64,
    to: u64,
)
    requires
        store.valid(),
    ensures
        store.linking(config, from, to) matches Ok(path) ==> {
            &&& from <= to <= store.entries.len()
            &&& store.grounding(config, from) matches Ok(earlier)
            &&& store.grounding(config, to) matches Ok(later)
            &&& store.genuine(earlier)
            &&& store.genuine(later)
            &&& path == hash_texts(
                consistency_path(leaves_of(store.entries).take(to as int), from as nat),
            )
        },
{
    a_claim_is_grounded_on_a_genuine_checkpoint(store, config, from);
    a_claim_is_grounded_on_a_genuine_checkpoint(store, config, to);
}

/// A rotation proof opens its own checkpoint: the checkpoint is the anchor held for the
/// rotation, it commits the manifest, its root is the root over the entries it commits, and the
/// path leads from the manifest's leaf at its index to that root.
pub proof fn a_rotation_proof_opens_its_checkpoint(
    store: StoreView,
    config: ConfigView,
    index: u64,
)
    requires
        store.valid(),
    ensures
        store.rotation_proof(config, index) matches Ok((cp, texts)) ==> {
            let leaves = leaves_of(store.entries).take(cp.tree_size as int);
            let path = inclusion_path(leaves, index as nat);
            &&& anchor_for(store.anchors, index) == Some(cp)
            &&& index < cp.tree_size
            &&& store.genuine(cp)
            &&& texts == hash_texts(path)
            &&& inclusion_verdict(
                leaves[index as int],
                index as nat,
                cp.tree_size as nat,
                path,
                root_of(leaves),
            ) == Some(true)
        },
{
    if let Ok((cp, _)) = store.rotation_proof(config, index) {
        let leaves = leaves_of(store.entries).take(cp.tree_size as int);
        an_inclusion_path_opens_the_root(leaves, index as nat, root_of(leaves));
    }
}

/// The first usable member of a size is found wherever there is one, and none comes before it.
proof fn a_usable_member_is_found(members: Seq<Member>, tree_size: u64)
    ensures
        match first_usable_at(members, tree_size) {
            Some(cp) => exists|i: int|
                0 <= i < members.len() && #[trigger] members[i] == (
                    cp,
                    CheckpointState::SeriesUsable,
                ) && cp.tree_size == tree_size && forall|j: int|
                    0 <= j < i ==> !((#[trigger] members[j]).0.tree_size == tree_size
                        && members[j].1 == CheckpointState::SeriesUsable),
            None => forall|i: int|
                0 <= i < members.len() ==> !((#[trigger] members[i]).0.tree_size == tree_size
                    && members[i].1 == CheckpointState::SeriesUsable),
        },
    decreases members.len(),
{
    if members.len() > 0 {
        let rest = members.drop_first();
        a_usable_member_is_found(rest, tree_size);
        assert forall|i: int| 0 < i < members.len() implies #[trigger] members[i] == rest[i
            - 1] by {}
        if members[0].0.tree_size == tree_size && members[0].1 == CheckpointState::SeriesUsable {
            assert(members[0] == (members[0].0, CheckpointState::SeriesUsable));
        } else if let Some(cp) = first_usable_at(rest, tree_size) {
            let k = choose|i: int|
                0 <= i < rest.len() && #[trigger] rest[i] == (cp, CheckpointState::SeriesUsable)
                    && cp.tree_size == tree_size && forall|j: int|
                    0 <= j < i ==> !((#[trigger] rest[j]).0.tree_size == tree_size && rest[j].1
                        == CheckpointState::SeriesUsable);
            assert(members[k + 1] == rest[k]);
            assert forall|j: int| 0 <= j < k + 1 implies !((#[trigger] members[j]).0.tree_size
                == tree_size && members[j].1 == CheckpointState::SeriesUsable) by {
                if j > 0 {
                    assert(members[j] == rest[j - 1]);
                }
            }
        }
    }
}

/// A size grounds a claim exactly where it lies below the floor, if there is one, and some member
/// of it is usable, however far the frontier reaches; the claim is grounded on the first such
/// member. At or beyond the floor it is refused for the contradiction, below it as unknown where
/// there is no member of the size, and as not usable where there are members but none is usable.
pub proof fn a_usable_size_below_the_floor_grounds_a_claim(report: SeriesReport, tree_size: u64)
    ensures
        report.equivocation_floor matches Some(floor) ==> floor <= tree_size ==> grounded(
            report,
            tree_size,
        ) == Err::<CheckpointView, Fault>(Fault::SeriesEquivocated { tree_size, floor }),
        (report.equivocation_floor matches Some(floor) ==> tree_size < floor) ==> {
            &&& grounded(report, tree_size) is Ok <==> exists|i: int|
                0 <= i < report.members.len() && (#[trigger] report.members[i]).0.tree_size
                    == tree_size && report.members[i].1 == CheckpointState::SeriesUsable
            &&& grounded(report, tree_size) matches Ok(cp) ==> exists|i: int|
                0 <= i < report.members.len() && #[trigger] report.members[i] == (
                    cp,
                    CheckpointState::SeriesUsable,
                ) && cp.tree_size == tree_size && forall|j: int|
                    0 <= j < i ==> !((#[trigger] report.members[j]).0.tree_size == tree_size
                        && report.members[j].1 == CheckpointState::SeriesUsable)
            &&& (forall|i: int|
                0 <= i < report.members.len() ==> (#[trigger] report.members[i]).0.tree_size
                    != tree_size) ==> grounded(report, tree_size) == Err::<CheckpointView, Fault>(
                Fault::UnknownCheckpoint { tree_size },
            )
            &&& (exists|i: int|
                0 <= i < report.members.len() && (#[trigger] report.members[i]).0.tree_size
                    == tree_size) && (forall|i: int|
                0 <= i < report.members.len() && (#[trigger] report.members[i]).0.tree_size
                    == tree_size ==> report.members[i].1 != CheckpointState::SeriesUsable)
                ==> grounded(report, tree_size) == Err::<CheckpointView, Fault>(
                Fault::CheckpointNotSeriesUsable { tree_size },
            )
        },
{
    a_usable_member_is_found(report.members, tree_size);
}

/// A claim is grounded on the report of the store's own series, and refused with what refuses
/// the report.
pub proof fn a_claim_is_grounded_on_the_series(store: StoreView, config: ConfigView, tree_size: u64)
    ensures
        match store.series(config) {
            Ok(report) => store.grounding(config, tree_size) == grounded(report, tree_size),
            Err(fault) => store.grounding(config, tree_size) == Err::<CheckpointView, Fault>(fault),
        },
{
}

/// The last member of a size is found wherever there is one, and none comes after it.
proof fn a_last_member_is_found(members: Seq<Member>, tree_size: u64)
    ensures
        match last_at(members, tree_size) {
            Some(member) => exists|i: int|
                0 <= i < members.len() && #[trigger] members[i] == member && member.0.tree_size
                    == tree_size && forall|j: int|
                    i < j < members.len() ==> (#[trigger] members[j]).0.tree_size != tree_size,
            None => forall|i: int|
                0 <= i < members.len() ==> (#[trigger] members[i]).0.tree_size != tree_size,
        },
    decreases members.len(),
{
    if members.len() > 0 {
        let rest = members.drop_last();
        a_last_member_is_found(rest, tree_size);
        assert forall|i: int| 0 <= i < rest.len() implies #[trigger] members[i] == rest[i] by {}
        if members.last().0.tree_size == tree_size {
            assert(members[members.len() - 1] == members.last());
        } else if let Some(member) = last_at(rest, tree_size) {
            let k = choose|i: int|
                0 <= i < rest.len() && #[trigger] rest[i] == member && member.0.tree_size
                    == tree_size && forall|j: int|
                    i < j < rest.len() ==> (#[trigger] rest[j]).0.tree_size != tree_size;
            assert(members[k] == member);
            assert forall|j: int| k < j < members.len() implies (
            #[trigger] members[j]).0.tree_size != tree_size by {
                if j < rest.len() {
                    assert(members[j] == rest[j]);
                }
            }
        }
    }
}

/// A lookup reports the latest: below the floor it gives a reported member of the size, with the
/// state it is reported with, and every other reported member of the size has an earlier time. It
/// is refused as unknown exactly where there is no member of the size.
pub proof fn a_lookup_reports_the_latest(store: StoreView, config: ConfigView, tree_size: u64)
    requires
        store.valid(),
        store.series(config) is Ok,
    ensures
        ({
            let report = store.series(config)->Ok_0;
            let found = looked_up(report, tree_size);
            let below = report.equivocation_floor matches Some(floor) ==> tree_size < floor;
            &&& !below ==> found == Err::<Member, Fault>(
                Fault::SeriesEquivocated { tree_size, floor: report.equivocation_floor->0 },
            )
            &&& below ==> match found {
                Ok(member) => {
                    &&& report.members.contains(member)
                    &&& store.checkpoints.contains(member.0)
                    &&& member.0.tree_size == tree_size
                    &&& forall|i: int|
                        0 <= i < report.members.len() && (
                        #[trigger] report.members[i]).0.tree_size == tree_size
                            ==> report.members[i] == member || text_before(
                            report.members[i].0.checkpoint_time,
                            member.0.checkpoint_time,
                        )
                },
                Err(fault) => fault == (Fault::UnknownCheckpoint { tree_size }) && forall|i: int|
                    0 <= i < report.members.len() ==> (#[trigger] report.members[i]).0.tree_size
                        != tree_size,
            }
        }),
{
    let report = store.series(config)->Ok_0;
    let members = report.members;
    members_are_the_series(store, store.checkpoints);
    a_last_member_is_found(members, tree_size);
    if let Some(member) = last_at(members, tree_size) {
        let k = choose|i: int|
            0 <= i < members.len() && #[trigger] members[i] == member && member.0.tree_size
                == tree_size && forall|j: int|
                i < j < members.len() ==> (#[trigger] members[j]).0.tree_size != tree_size;
        assert(members[k].0 == store.checkpoints[k]);
        assert forall|i: int|
            0 <= i < members.len() && (#[trigger] members[i]).0.tree_size
                == tree_size implies members[i] == member || text_before(
            members[i].0.checkpoint_time,
            member.0.checkpoint_time,
        ) by {
            if i < k {
                assert(members[i].0 == store.checkpoints[i]);
                assert(comes_before(store.checkpoints[i], store.checkpoints[k]));
            }
        }
    }
}

/// Where every complete node is stored, no sibling span of a leaf has a lost node.
proof fn whole_material_opens_inclusion(material: TreeView, index: nat, offset: nat, size: nat)
    requires
        material.held == complete_nodes(material.leaves.len()),
        offset + size <= material.leaves.len(),
    ensures
        material.gap_over(sibling_spans(index, offset, size)) is None,
    decreases size,
{
    if size > 1 {
        split_is_largest_power_below(size);
        let k = split(size);
        let rest = if index < k {
            whole_material_has_no_gap(material, offset + k, (size - k) as nat);
            whole_material_opens_inclusion(material, index, offset, k);
            sibling_spans(index, offset, k)
        } else {
            whole_material_has_no_gap(material, offset, k);
            whole_material_opens_inclusion(
                material,
                (index - k) as nat,
                offset + k,
                (size - k) as nat,
            );
            sibling_spans((index - k) as nat, offset + k, (size - k) as nat)
        };
        assert(sibling_spans(index, offset, size).drop_first() =~= rest);
    }
}

/// A consistency path is owed: in a store that lost no node, it is served exactly where both
/// sizes ground a claim and they are in order. The first size that grounds none is told first,
/// and only two that do are told to be the wrong way round.
pub proof fn a_consistency_path_is_owed_between_grounded_sizes(
    store: StoreView,
    config: ConfigView,
    from: u64,
    to: u64,
)
    requires
        store.valid(),
        store.tree.held == complete_nodes(store.entries.len()),
    ensures
        match (store.grounding(config, from), store.grounding(config, to)) {
            (Err(fault), _) => store.linking(config, from, to) == Err::<Seq<Seq<char>>, Fault>(
                fault,
            ),
            (Ok(_), Err(fault)) => store.linking(config, from, to) == Err::<Seq<Seq<char>>, Fault>(
                fault,
            ),
            (Ok(_), Ok(_)) => {
                &&& from > to ==> store.linking(config, from, to) == Err::<Seq<Seq<char>>, Fault>(
                    Fault::ConsistencyOrder { from, to },
                )
                &&& from <= to ==> store.linking(config, from, to) is Ok
                &&& from == to ==> store.linking(config, from, to) == Ok::<Seq<Seq<char>>, Fault>(
                    Seq::empty(),
                )
            },
        },
{
    a_claim_is_grounded_on_a_genuine_checkpoint(store, config, from);
    a_claim_is_grounded_on_a_genuine_checkpoint(store, config, to);
    if store.grounding(config, from) is Ok && store.grounding(config, to) is Ok && from <= to {
        whole_material_opens_consistency(store.tree, from as nat, 0, to as nat, true);
        if from == to {
            assert(hash_texts(
                consistency_path(store.tree.leaves.take(to as int), from as nat),
            ) =~= Seq::<Seq<char>>::empty());
        }
    }
}

/// A served hash is read back: every text of a served path stands for the hash it was written
/// from.
pub proof fn a_served_path_reads_back(hashes: Seq<Seq<u8>>)
    requires
        forall|i: int| 0 <= i < hashes.len() ==> (#[trigger] hashes[i]).len() == 32,
    ensures
        hash_texts(hashes).len() == hashes.len(),
        forall|i: int|
            0 <= i < hashes.len() ==> hash_of_text(#[trigger] hash_texts(hashes)[i]) == Some(
                hashes[i],
            ),
{
    assert forall|i: int| 0 <= i < hashes.len() implies hash_of_text(
        #[trigger] hash_texts(hashes)[i],
    ) == Some(hashes[i]) by {
        a_rendered_hash_parses_back(hashes[i]);
    }
}

/// A rotation proof is owed: in a store that lost no node, it is served exactly where an anchor is
/// held for the rotation and the one served lies below the floor, commits the manifest's index,
/// and has the root over the entries it commits; and each way in which that fails has its own
/// refusal.
pub proof fn a_rotation_proof_is_owed_for_a_genuine_anchor(
    store: StoreView,
    config: ConfigView,
    index: u64,
)
    requires
        store.valid(),
        store.tree.held == complete_nodes(store.entries.len()),
        index <= MAX_LEAVES,
        store.series(config) is Ok,
    ensures
        match anchor_for(store.anchors, index) {
            None => store.rotation_proof(config, index) == Err::<
                (CheckpointView, Seq<Seq<char>>),
                Fault,
            >(Fault::UnknownRotationProof { manifest_entry_index: index }),
            Some(cp) => {
                let report = store.series(config)->Ok_0;
                let below = report.equivocation_floor matches Some(floor) ==> cp.tree_size < floor;
                let held = cp.tree_size <= store.entries.len();
                let root = root_of(leaves_of(store.entries).take(cp.tree_size as int));
                let claimed = hash_of_text(cp.root_hash);
                &&& store.rotation_proof(config, index) is Ok <==> below && held && index
                    < cp.tree_size && claimed == Some(root)
                &&& !below ==> store.rotation_proof(config, index) == Err::<
                    (CheckpointView, Seq<Seq<char>>),
                    Fault,
                >(
                    Fault::SeriesEquivocated {
                        tree_size: cp.tree_size,
                        floor: report.equivocation_floor->0,
                    },
                )
                &&& below && !held && cp.tree_size <= MAX_LEAVES ==> store.rotation_proof(
                    config,
                    index,
                ) == Err::<(CheckpointView, Seq<Seq<char>>), Fault>(
                    Fault::IncompleteEntries {
                        have: store.entries.len() as u64,
                        need: cp.tree_size,
                    },
                )
                &&& below && held && index < cp.tree_size && claimed is Some && claimed != Some(
                    root,
                ) ==> store.rotation_proof(config, index) == Err::<
                    (CheckpointView, Seq<Seq<char>>),
                    Fault,
                >(Fault::CheckpointRootMismatch { tree_size: cp.tree_size })
            },
        },
{
    if let Some(cp) = anchor_for(store.anchors, index) {
        if cp.tree_size <= store.entries.len() {
            whole_material_opens_inclusion(store.tree, index as nat, 0, cp.tree_size as nat);
        }
    }
}

/// A promotion without a checkpoint of its own is judged under the latest recorded checkpoint of
/// the size, exactly as if that one had been named, and refused as unknown where none of the size
/// is recorded.
pub proof fn a_promotion_is_judged_under_the_latest_of_its_size(
    store: StoreView,
    tree_size: u64,
    entry_id: Seq<char>,
    index: u64,
    texts: Seq<Seq<char>>,
    cp: CheckpointView,
)
    requires
        store.valid(),
        tree_size <= MAX_LEAVES,
    ensures
        store.checkpoints.contains(cp) && cp.tree_size == tree_size && (forall|i: int|
            0 <= i < store.checkpoints.len() && (#[trigger] store.checkpoints[i]).tree_size
                == tree_size ==> store.checkpoints[i] == cp || text_before(
                store.checkpoints[i].checkpoint_time,
                cp.checkpoint_time,
            )) ==> store.promoting_under(tree_size, entry_id, index, texts) == store.proving(
            cp,
            entry_id,
            index,
            texts,
        ),
        (forall|i: int|
            0 <= i < store.checkpoints.len() ==> (#[trigger] store.checkpoints[i]).tree_size
                != tree_size) ==> store.promoting_under(tree_size, entry_id, index, texts) == Err::<
            (StoreView, InsertOutcome),
            Fault,
        >(Fault::UnknownCheckpoint { tree_size }),
{
    the_latest_member_has_the_greatest_time(store.checkpoints, tree_size);
    if let Some(found) = latest_at(store.checkpoints, tree_size) {
        let k = choose|k: int| 0 <= k < store.checkpoints.len() && store.checkpoints[k] == found;
        assert(store.checkpoints[k].tree_size == tree_size);
        if store.checkpoints.contains(cp) {
            let m = choose|m: int| 0 <= m < store.checkpoints.len() && store.checkpoints[m] == cp;
            order_is_total(store.checkpoints[k], store.checkpoints[m]);
        }
    } else if store.checkpoints.contains(cp) {
        let m = choose|m: int| 0 <= m < store.checkpoints.len() && store.checkpoints[m] == cp;
        assert(store.checkpoints[m].tree_size != tree_size);
    }
}

/// What a refusal is answered with: 404 names what is not there, 409 what is there but cannot be
/// vouched for, 500 a fault of this deployment, and 400 everything that the request is to blame
/// for.
pub proof fn a_refusal_is_answered_by_its_kind(fault: Fault)
    ensures
        status_of_fault(fault) == match fault {
            Fault::UnknownCheckpoint { .. }
            | Fault::UnknownRotationProof { .. }
            | Fault::NotStaged { .. } => 404u16,
            Fault::IncompleteEntries { .. }
            | Fault::CheckpointNotSeriesUsable { .. }
            | Fault::SeriesEquivocated { .. } => 409u16,
            Fault::StoredEntryCorrupt { .. }
            | Fault::TreeMaterialMissing { .. }
            | Fault::TreeMaterialCorrupt { .. }
            | Fault::CheckpointRootMismatch { .. }
            | Fault::IndexOverflow { .. }
            | Fault::Atl
            | Fault::StoreInit(_) => 500u16,
            _ => 400u16,
        },
{
}

/// A `base64:` field is that word and a base64 text, and holds what the text decodes to; a value
/// that does not begin with it holds nothing.
pub proof fn a_field_is_its_word_and_a_text(value: Seq<char>, text: Seq<char>)
    ensures
        field_octets("base64:"@ + text) == base64_octets(text),
        field_octets(value) is Some ==> value.len() >= 7 && value.take(7) == "base64:"@,
{
    reveal_strlit("base64:");
    let joined = "base64:"@ + text;
    assert(joined.take(7) =~= "base64:"@);
    assert(joined.skip(7) =~= text);
}

} // verus!
