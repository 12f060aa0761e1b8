//! The store: staged candidates, canonical entries under their tree, the checkpoint series and
//! the rotation anchors.
//!
//! A staged candidate is filed under its entry id and claims no position, so any number of
//! them can wait side by side. An entry becomes canonical at one index, the next one, and
//! stays there. Rotation anchors are held apart from the series: no series question ever
//! reads them by accident. An anchor that is superseded by an earlier one is never served, but
//! the root it was signed for is not forgotten.

use vstd::hash_map::StringHashMap;
use vstd::prelude::*;

use crate::error::{gives, refuses, Fault, MirrorError, MirrorResult};
use crate::geometry::{
    hashes_view, root_of, span_root, width, width_at_64, width_is_monotone, width_is_positive,
};
use crate::metadata::{leaf_of, log_leaf_hash};
use crate::proofs::{
    consistency_path, consistency_spans, reads_over, saturated,
    whole_material_opens_consistency, ConsistencyProof, InclusionProof, TreeReadCost,
};
use crate::restore::{
    an_entry_fault_stands, check_anchors, check_series, check_superseded, checked_leaf,
    entries_fault, expected_nodes, is_true_node, is_whole_cache, row_leaves, staged_rows,
    tell_apart, EntryRecord, NodeRecord, Rows,
};
use crate::series::{
    a_found_anchor_is_listed, anchor_at, anchor_checkpoints, anchor_for, anchor_or_keep,
    anchored, anchors_view, checkpoints_view, comes_before, copy_anchors, copy_checkpoints,
    find_anchor, holds_root, in_series_order, in_weak_order, inserted_contains,
    inserting_at_rank_keeps_series_order, inserting_at_rank_keeps_weak_order, joined_contains,
    latest_at, member_at, member_at_finds, offer, offered, order_is_total, order_is_transitive,
    rank, rank_parts_the_list, same_place, series_order_is_weak_order, superseded_after,
    the_served_anchor_is_the_earliest_held, Checkpoint, CheckpointView,
};
pub use crate::series::InsertOutcome;
use crate::text::{bytes_view, copy_bytes, same_bytes, same_text};
use crate::tree::{
    complete_nodes, missing, whole_material_has_no_gap, whole_material_stays_whole,
    width_divides, TreeMaterial, TreeView, MAX_LEAVES,
};

verus! {

/// A stored entry: its position in the log and its exact bytes.
#[derive(Debug, Clone, PartialEq, Eq)]
pub struct StoredEntry {
    /// The entry's position in the log.
    pub entry_index: u64,
    /// The exact bytes anchored as this entry.
    pub envelope: Vec<u8>,
}

/// A canonical entry, filed under its id.
struct EntryRow {
    entry_id: String,
    envelope: Vec<u8>,
}

/// A canonical entry: its id and its bytes.
#[verifier::ext_equal]
pub ghost struct EntryView {
    pub entry_id: Seq<char>,
    pub envelope: Seq<u8>,
}

/// What a store holds.
#[verifier::ext_equal]
pub ghost struct StoreView {
    /// Staged bytes by entry id.
    pub staged: Map<Seq<char>, Seq<u8>>,
    /// Canonical entries by index.
    pub entries: Seq<EntryView>,
    /// The tree over them.
    pub tree: TreeView,
    /// The series, in order.
    pub checkpoints: Seq<CheckpointView>,
    /// The rotation anchors, in order, each with the rotating manifest's entry index.
    pub anchors: Seq<(u64, CheckpointView)>,
    /// Accepted anchors that an earlier one supersedes and whose roots nothing else shows, in
    /// order: evidence of what was signed, never served.
    pub superseded: Seq<CheckpointView>,
}

/// The leaf hashes of a list of entries.
pub open spec fn leaves_of(entries: Seq<EntryView>) -> Seq<Seq<u8>> {
    Seq::new(entries.len(), |i: int| leaf_of(entries[i].envelope))
}

/// The bytes of a list of entries.
pub open spec fn envelopes_of(entries: Seq<EntryView>) -> Seq<Seq<u8>> {
    Seq::new(entries.len(), |i: int| entries[i].envelope)
}

impl StoreView {
    /// What holds of every store: the tree is over the entries, an id occurs once, the series
    /// is strictly ordered and the anchors are ordered, and every size and index is addressable.
    pub open spec fn valid(self) -> bool {
        &&& self.entries.len() <= MAX_LEAVES
        &&& self.tree.leaves == leaves_of(self.entries)
        &&& self.tree.held.subset_of(complete_nodes(self.entries.len()))
        &&& forall|i: int, j: int|
            0 <= i < j < self.entries.len() ==> (#[trigger] self.entries[i]).entry_id != (
            #[trigger] self.entries[j]).entry_id
        &&& in_series_order(self.checkpoints)
        &&& in_weak_order(anchor_checkpoints(self.anchors))
        &&& in_weak_order(self.superseded)
    }

    /// Every authenticated checkpoint of the log that is held: the series, the rotation anchors
    /// and the superseded ones.
    pub open spec fn authenticated(self) -> Seq<CheckpointView> {
        self.checkpoints + anchor_checkpoints(self.anchors) + self.superseded
    }

    /// The index an entry id is canonical at.
    pub open spec fn index_of(self, entry_id: Seq<char>) -> Option<int> {
        if exists|i: int| 0 <= i < self.entries.len() && self.entries[i].entry_id == entry_id {
            Some(choose|i: int| 0 <= i < self.entries.len() && self.entries[i].entry_id == entry_id)
        } else {
            None
        }
    }

    /// The entries of `[from, to)` that are held.
    pub open spec fn window(self, from: int, to: int) -> Seq<EntryView> {
        if from >= to || from >= self.entries.len() {
            Seq::empty()
        } else if to <= self.entries.len() {
            self.entries.subrange(from, to)
        } else {
            self.entries.skip(from)
        }
    }

    /// Staging bytes under an id: a free id takes them, an id with the same bytes keeps them,
    /// and an id with other bytes refuses them.
    pub open spec fn staging(self, entry_id: Seq<char>, bytes: Seq<u8>) -> Result<
        (StoreView, InsertOutcome),
        Fault,
    > {
        if !self.staged.contains_key(entry_id) {
            Ok(
                (
                    StoreView { staged: self.staged.insert(entry_id, bytes), ..self },
                    InsertOutcome::Inserted,
                ),
            )
        } else if self.staged[entry_id] == bytes {
            Ok((self, InsertOutcome::AlreadyPresent))
        } else {
            Err(
                Fault::IndexConflict {
                    index: 0,
                    existing_entry_id: entry_id,
                    new_entry_id: entry_id,
                },
            )
        }
    }

    /// The store with one more canonical entry.
    pub open spec fn extended(self, entry: EntryView) -> StoreView {
        StoreView {
            entries: self.entries.push(entry),
            tree: self.tree.appended(leaf_of(entry.envelope)),
            ..self
        }
    }

    /// The store with its first `count` canonical entries only.
    pub open spec fn retracted(self, count: nat) -> StoreView {
        StoreView {
            entries: self.entries.take(count as int),
            tree: self.tree.truncated(count),
            ..self
        }
    }

    /// Promoting a staged entry to an index: only bytes that are staged, only at the next
    /// index, each id once; the same entry at the same index again changes nothing.
    pub open spec fn promoting(self, index: u64, entry_id: Seq<char>) -> Result<
        (StoreView, InsertOutcome),
        Fault,
    > {
        if index > MAX_LEAVES {
            Err(Fault::IndexOverflow { what: "entry_index"@ })
        } else if !self.staged.contains_key(entry_id) {
            Err(Fault::NotStaged { entry_id })
        } else if index < self.entries.len() {
            let occupant = self.entries[index as int];
            if occupant.entry_id == entry_id && occupant.envelope == self.staged[entry_id] {
                Ok((self, InsertOutcome::AlreadyPresent))
            } else {
                Err(
                    Fault::IndexConflict {
                        index,
                        existing_entry_id: occupant.entry_id,
                        new_entry_id: entry_id,
                    },
                )
            }
        } else if self.index_of(entry_id) is Some {
            Err(
                Fault::EntryIdAtDifferentIndex {
                    entry_id,
                    existing_index: self.index_of(entry_id)->0 as u64,
                    requested_index: index,
                },
            )
        } else if index != self.entries.len() {
            Err(Fault::OutOfOrderIndex { expected: self.entries.len() as u64, got: index })
        } else if index == MAX_LEAVES {
            Err(Fault::IndexOverflow { what: "next_index"@ })
        } else {
            match self.tree.sibling_gap(self.entries.len() + 1, 1) {
                Some(node) => Err(missing(node)),
                None => Ok(
                    (
                        self.extended(EntryView { entry_id, envelope: self.staged[entry_id] }),
                        InsertOutcome::Inserted,
                    ),
                ),
            }
        }
    }

    /// Recording a checkpoint in the series.
    pub open spec fn recording(self, cp: CheckpointView) -> Result<
        (StoreView, InsertOutcome),
        Fault,
    > {
        if cp.tree_size > MAX_LEAVES {
            Err(Fault::IndexOverflow { what: "tree_size"@ })
        } else {
            match offered(self.checkpoints, cp) {
                Ok((checkpoints, done)) => Ok((StoreView { checkpoints, ..self }, done)),
                Err(fault) => Err(fault),
            }
        }
    }

    /// Recording an anchor of a rotation; one that is superseded is kept as evidence of its
    /// root where nothing else shows it.
    pub open spec fn anchoring(self, index: u64, cp: CheckpointView) -> Result<
        (StoreView, InsertOutcome),
        Fault,
    > {
        if index > MAX_LEAVES {
            Err(Fault::IndexOverflow { what: "manifest_entry_index"@ })
        } else if cp.tree_size > MAX_LEAVES {
            Err(Fault::IndexOverflow { what: "tree_size"@ })
        } else {
            match anchored(self.anchors, index, cp) {
                Ok((anchors, done)) => {
                    let superseded = superseded_after(
                        self.checkpoints,
                        anchors,
                        self.superseded,
                        cp,
                    );
                    Ok((StoreView { anchors, superseded, ..self }, done))
                },
                Err(fault) => Err(fault),
            }
        }
    }

    /// Recording a checkpoint as the anchor of several rotations, in order.
    pub open spec fn anchoring_all(self, indexes: Seq<u64>, cp: CheckpointView) -> Result<
        StoreView,
        Fault,
    >
        decreases indexes.len(),
    {
        if indexes.len() == 0 {
            Ok(self)
        } else {
            match self.anchoring_all(indexes.drop_last(), cp) {
                Err(fault) => Err(fault),
                Ok(before) => match before.anchoring(indexes.last(), cp) {
                    Ok((after, _)) => Ok(after),
                    Err(fault) => Err(fault),
                },
            }
        }
    }

    /// Recording a checkpoint in the series, where it is a member, and as an anchor.
    pub open spec fn admitting(self, cp: CheckpointView, member: bool, indexes: Seq<u64>) -> Result<
        StoreView,
        Fault,
    > {
        if member {
            match self.recording(cp) {
                Ok((after, _)) => after.anchoring_all(indexes, cp),
                Err(fault) => Err(fault),
            }
        } else {
            self.anchoring_all(indexes, cp)
        }
    }

    /// The root over the first `size` entries, or why it is not opened; over none it is the
    /// root of the empty tree.
    pub open spec fn root_at(self, size: nat) -> Result<Seq<u8>, Fault> {
        if size == 0 {
            Ok(root_of(Seq::empty()))
        } else {
            self.tree.opened(0, size)
        }
    }

    /// The consistency path between two sizes of the log, or why it is not opened.
    pub open spec fn link(self, from: u64, to: u64) -> Result<Seq<Seq<u8>>, Fault> {
        if to > MAX_LEAVES {
            Err(Fault::IndexOverflow { what: "to_index"@ })
        } else if to > self.entries.len() {
            Err(Fault::IncompleteEntries { have: self.entries.len() as u64, need: to })
        } else {
            self.tree.linked(from as nat, to as nat)
        }
    }
}

/// The mirror's store.
pub struct Store {
    staged: StringHashMap<Vec<u8>>,
    entries: Vec<EntryRow>,
    positions: StringHashMap<u64>,
    tree: TreeMaterial,
    checkpoints: Vec<Checkpoint>,
    anchors: Vec<(u64, Checkpoint)>,
    superseded: Vec<Checkpoint>,
}

/// The canonical rows by their views.
spec fn rows_view(rows: Seq<EntryRow>) -> Seq<EntryView> {
    Seq::new(
        rows.len(),
        |i: int| EntryView { entry_id: rows[i].entry_id@, envelope: rows[i].envelope@ },
    )
}

impl View for Store {
    type V = StoreView;

    closed spec fn view(&self) -> StoreView {
        StoreView {
            staged: self.staged@.map_values(|bytes: Vec<u8>| bytes@),
            entries: rows_view(self.entries@),
            tree: self.tree@,
            checkpoints: checkpoints_view(self.checkpoints@),
            anchors: anchors_view(self.anchors@),
            superseded: checkpoints_view(self.superseded@),
        }
    }
}

impl Store {
    /// The positions are those of the entries, and what is held is a valid store.
    pub closed spec fn wf(self) -> bool {
        &&& self.tree.wf()
        &&& self@.valid()
        &&& positioned(self.entries@, self.positions@)
    }

    /// Every store holds what a valid store holds.
    pub proof fn is_valid(self)
        requires
            self.wf(),
        ensures
            self@.valid(),
    {
    }

    /// An id has a position exactly where it is canonical, and it is that position.
    proof fn positions_are_indexes(self, id: Seq<char>)
        requires
            self.wf(),
        ensures
            self.positions@.contains_key(id) <==> self@.index_of(id) is Some,
            self.positions@.contains_key(id) ==> self@.index_of(id) == Some(
                self.positions@[id] as int,
            ),
    {
        if self.positions@.contains_key(id) {
            let at = self.positions@[id] as int;
            assert(self@.entries[at].entry_id == id);
            let found = self@.index_of(id)->0;
            assert(self@.entries[found].entry_id == id);
        }
        if self@.index_of(id) is Some {
            let found = self@.index_of(id)->0;
            assert(self@.entries[found].entry_id == self.entries@[found].entry_id@);
        }
    }

    /// An empty store.
    pub fn open_in_memory() -> (opened: MirrorResult<Self>)
        ensures
            opened is Ok,
            opened->Ok_0.wf(),
            opened->Ok_0@ == (StoreView {
                staged: Map::empty(),
                entries: Seq::empty(),
                tree: TreeView { leaves: Seq::empty(), held: Set::empty() },
                checkpoints: Seq::empty(),
                anchors: Seq::empty(),
                superseded: Seq::empty(),
            }),
    {
        let store = Store {
            staged: StringHashMap::new(),
            entries: Vec::new(),
            positions: StringHashMap::new(),
            tree: TreeMaterial::new(),
            checkpoints: Vec::new(),
            anchors: Vec::new(),
            superseded: Vec::new(),
        };
        proof {
            assert(store@.staged =~= Map::<Seq<char>, Seq<u8>>::empty());
            assert(store@.entries =~= Seq::<EntryView>::empty());
            assert(store@.checkpoints =~= Seq::<CheckpointView>::empty());
            assert(store@.anchors =~= Seq::<(u64, CheckpointView)>::empty());
            assert(store@.superseded =~= Seq::<CheckpointView>::empty());
            assert(leaves_of(store@.entries) =~= Seq::<Seq<u8>>::empty());
        }
        Ok(store)
    }

    /// Stage bytes under an entry id.
    pub fn stage_entry(&mut self, entry_id: &str, bytes: &[u8]) -> (staged: MirrorResult<
        InsertOutcome,
    >)
        requires
            old(self).wf(),
        ensures
            final(self).wf(),
            match staged {
                Ok(done) => gives(old(self)@.staging(entry_id@, bytes@), (final(self)@, done)),
                Err(error) => refuses(old(self)@.staging(entry_id@, bytes@), error) && final(self)@
                    == old(self)@,
            },
    {
        match self.staged.get(entry_id) {
            Some(existing) => {
                if same_bytes(existing.as_slice(), bytes) {
                    Ok(InsertOutcome::AlreadyPresent)
                } else {
                    Err(
                        MirrorError::IndexConflict {
                            index: 0,
                            existing_entry_id: entry_id.to_owned(),
                            new_entry_id: entry_id.to_owned(),
                        },
                    )
                }
            },
            None => {
                let ghost before = self@;
                let ghost rows = self.entries@;
                self.staged.insert(entry_id.to_owned(), copy_bytes(bytes));
                assert(self@.staged =~= before.staged.insert(entry_id@, bytes@));
                Ok(InsertOutcome::Inserted)
            },
        }
    }

    /// The staged bytes under an entry id.
    pub fn get_staged(&self, entry_id: &str) -> (found: MirrorResult<Option<Vec<u8>>>)
        requires
            self.wf(),
        ensures
            match found {
                Ok(Some(bytes)) => self@.staged.contains_key(entry_id@) && bytes@
                    == self@.staged[entry_id@],
                Ok(None) => !self@.staged.contains_key(entry_id@),
                Err(_) => false,
            },
    {
        match self.staged.get(entry_id) {
            Some(bytes) => Ok(Some(copy_bytes(bytes.as_slice()))),
            None => Ok(None),
        }
    }

    /// The next entry index: how many entries are canonical.
    pub fn next_index(&self) -> (next: MirrorResult<u64>)
        requires
            self.wf(),
        ensures
            match next {
                Ok(index) => index == self@.entries.len(),
                Err(_) => false,
            },
    {
        Ok(self.len())
    }

    /// How many entries are canonical.
    pub(crate) fn len(&self) -> (count: u64)
        requires
            self.wf(),
        ensures
            count == self@.entries.len(),
            count <= MAX_LEAVES,
    {
        assert(self@.entries.len() == self.entries@.len());
        self.entries.len() as u64
    }

    /// Promote a staged entry to an index.
    pub fn promote_entry(&mut self, entry_index: u64, entry_id: &str) -> (promoted: MirrorResult<
        InsertOutcome,
    >)
        requires
            old(self).wf(),
        ensures
            final(self).wf(),
            match promoted {
                Ok(done) => gives(
                    old(self)@.promoting(entry_index, entry_id@),
                    (final(self)@, done),
                ),
                Err(error) => refuses(old(self)@.promoting(entry_index, entry_id@), error)
                    && final(self)@ == old(self)@,
            },
    {
        if entry_index > MAX_LEAVES {
            return Err(MirrorError::IndexOverflow { what: "entry_index" });
        }
        let bytes: Vec<u8> = match self.staged.get(entry_id) {
            Some(bytes) => copy_bytes(bytes.as_slice()),
            None => {
                return Err(MirrorError::NotStaged { entry_id: entry_id.to_owned() });
            },
        };
        let expected: u64 = self.len();
        if entry_index < expected {
            assert(entry_index < self.entries@.len() && self.entries@.len() == self.entries.len());
            let occupant: &EntryRow = &self.entries[entry_index as usize];
            assert(self@.entries[entry_index as int].entry_id == occupant.entry_id@);
            if same_text(occupant.entry_id.as_str(), entry_id) && same_bytes(
                occupant.envelope.as_slice(),
                bytes.as_slice(),
            ) {
                return Ok(InsertOutcome::AlreadyPresent);
            }
            return Err(
                MirrorError::IndexConflict {
                    index: entry_index,
                    existing_entry_id: occupant.entry_id.clone(),
                    new_entry_id: entry_id.to_owned(),
                },
            );
        }
        proof {
            self.positions_are_indexes(entry_id@);
        }
        if let Some(existing) = self.positions.get(entry_id) {
            return Err(
                MirrorError::EntryIdAtDifferentIndex {
                    entry_id: entry_id.to_owned(),
                    existing_index: *existing,
                    requested_index: entry_index,
                },
            );
        }
        if entry_index != expected {
            return Err(MirrorError::OutOfOrderIndex { expected, got: entry_index });
        }
        if expected == MAX_LEAVES {
            return Err(MirrorError::IndexOverflow { what: "next_index" });
        }
        self.append(entry_id, bytes)
    }

    /// Append an entry under an id that is not canonical yet.
    fn append(&mut self, entry_id: &str, bytes: Vec<u8>) -> (appended: MirrorResult<InsertOutcome>)
        requires
            old(self).wf(),
            old(self)@.entries.len() < MAX_LEAVES,
            !old(self).positions@.contains_key(entry_id@),
        ensures
            final(self).wf(),
            match appended {
                Ok(done) => {
                    &&& done == InsertOutcome::Inserted
                    &&& old(self)@.tree.sibling_gap(old(self)@.entries.len() + 1, 1) is None
                    &&& final(self)@ == old(self)@.extended(
                        (EntryView { entry_id: entry_id@, envelope: bytes@ }),
                    )
                },
                Err(error) => {
                    &&& old(self)@.tree.sibling_gap(
                        old(self)@.entries.len() + 1,
                        1,
                    ) matches Some(node) && error@ == missing(node)
                    &&& final(self)@ == old(self)@
                },
            },
    {
        let ghost before = *self;
        let at: u64 = self.len();
        let leaf: [u8; 32] = log_leaf_hash(bytes.as_slice());
        proof {
            assert(leaves_of(self@.entries).len() == self@.entries.len());
        }
        self.tree.push_leaf(leaf)?;
        self.positions.insert(entry_id.to_owned(), at);
        self.entries.push(EntryRow { entry_id: entry_id.to_owned(), envelope: bytes });
        proof {
            let entry = EntryView { entry_id: entry_id@, envelope: bytes@ };
            assert(self@.entries =~= before@.entries.push(entry));
            assert(leaves_of(self@.entries) =~= leaves_of(before@.entries).push(leaf@));
            self.tree.holds_complete_nodes_only();
            assert forall|i: int| 0 <= i < before.entries@.len() implies #[trigger] before@.entries[i].entry_id
                != entry_id@ by {
                assert(before.entries@[i].entry_id@ == before@.entries[i].entry_id);
                assert(before.positions@.contains_key(before.entries@[i].entry_id@));
            }
            assert(self@.valid());
            assert(self@ =~= before@.extended(entry));
            assert forall|i: int| 0 <= i < self.entries@.len() implies self.positions@.contains_key(
                (#[trigger] self.entries@[i]).entry_id@,
            ) && self.positions@[self.entries@[i].entry_id@] == i by {
                if i < before.entries@.len() {
                    assert(before.entries@[i] == self.entries@[i]);
                    assert(before@.entries[i].entry_id == before.entries@[i].entry_id@);
                }
            }
            assert forall|id: Seq<char>| #[trigger]
                self.positions@.contains_key(id) implies self.positions@[id] < self.entries@.len()
                && self.entries@[self.positions@[id] as int].entry_id@ == id by {
                if id != entry_id@ {
                    assert(before.positions@.contains_key(id));
                }
            }
        }
        Ok(InsertOutcome::Inserted)
    }

    /// Take back every canonical entry from `count` on.
    pub(crate) fn retract(&mut self, count: u64)
        requires
            old(self).wf(),
            count <= old(self)@.entries.len(),
        ensures
            final(self).wf(),
            final(self)@ == old(self)@.retracted(count as nat),
    {
        let ghost before = *self;
        assert(leaves_of(self@.entries).len() == self@.entries.len());
        self.tree.truncate(count);
        while self.entries.len() as u64 > count
            invariant
                before.wf(),
                count <= self.entries@.len() <= before.entries@.len(),
                before.entries@.len() <= MAX_LEAVES,
                self.entries@ == before.entries@.take(self.entries@.len() as int),
                self.tree.wf(),
                self.tree@ == before@.tree.truncated(count as nat),
                self.staged == before.staged,
                self.checkpoints == before.checkpoints,
                self.anchors == before.anchors,
                self.superseded == before.superseded,
                forall|i: int|
                    0 <= i < self.entries@.len() ==> self.positions@.contains_key(
                        (#[trigger] self.entries@[i]).entry_id@,
                    ) && self.positions@[self.entries@[i].entry_id@] == i,
                forall|id: Seq<char>| #[trigger]
                    self.positions@.contains_key(id) ==> self.positions@[id] < self.entries@.len()
                        && self.entries@[self.positions@[id] as int].entry_id@ == id,
            decreases self.entries@.len(),
        {
            let ghost rows = self.entries@;
            let ghost places = self.positions@;
            if let Some(row) = self.entries.pop() {
                self.positions.remove(row.entry_id.as_str());
                proof {
                    let last = rows.len() - 1;
                    assert(rows[last] == row);
                    assert(self.entries@ =~= before.entries@.take(self.entries@.len() as int));
                    assert forall|i: int| 0 <= i < self.entries@.len() implies self.positions@.contains_key(
                        (#[trigger] self.entries@[i]).entry_id@,
                    ) && self.positions@[self.entries@[i].entry_id@] == i by {
                        assert(rows[i] == self.entries@[i]);
                        assert(places[rows[i].entry_id@] == i);
                        assert(places[rows[last].entry_id@] == last);
                    }
                    assert forall|id: Seq<char>| #[trigger]
                        self.positions@.contains_key(id) implies self.positions@[id]
                        < self.entries@.len() && self.entries@[self.positions@[id] as int].entry_id@
                        == id by {
                        assert(places.contains_key(id));
                        assert(rows[places[id] as int].entry_id@ == id);
                    }
                }
            }
        }
        proof {
            assert(self@.entries =~= before@.entries.take(count as int));
            assert(leaves_of(self@.entries) =~= leaves_of(before@.entries).take(count as int));
            assert(self@ =~= before@.retracted(count as nat));
            assert forall|i: int, j: int| 0 <= i < j < self@.entries.len() implies (
            #[trigger] self@.entries[i]).entry_id != (#[trigger] self@.entries[j]).entry_id by {
                assert(self@.entries[i] == before@.entries[i]);
                assert(self@.entries[j] == before@.entries[j]);
            }
        }
    }
}

impl Store {
    /// The entry filed under an id.
    pub fn get_entry_by_id(&self, entry_id: &str) -> (found: MirrorResult<Option<StoredEntry>>)
        requires
            self.wf(),
        ensures
            match found {
                Ok(Some(entry)) => self@.index_of(entry_id@) == Some(entry.entry_index as int)
                    && entry.envelope@ == self@.entries[entry.entry_index as int].envelope,
                Ok(None) => self@.index_of(entry_id@) is None,
                Err(_) => false,
            },
    {
        proof {
            self.positions_are_indexes(entry_id@);
        }
        match self.positions.get(entry_id) {
            Some(index) => {
                let entry_index: u64 = *index;
                assert(entry_index < self.entries@.len() && self.entries@.len()
                    == self.entries.len());
                let row: &EntryRow = &self.entries[entry_index as usize];
                Ok(Some(StoredEntry { entry_index, envelope: copy_bytes(row.envelope.as_slice()) }))
            },
            None => Ok(None),
        }
    }

    /// The held part of `[from_index, to_index)`, as places in the list of entries.
    fn bounds(&self, from_index: u64, to_index: u64) -> (range: MirrorResult<(usize, usize)>)
        requires
            self.wf(),
        ensures
            match range {
                Ok((from, to)) => {
                    &&& from_index <= MAX_LEAVES
                    &&& to_index <= MAX_LEAVES
                    &&& from <= to <= self.entries@.len()
                    &&& self@.entries.subrange(from as int, to as int) == self@.window(
                        from_index as int,
                        to_index as int,
                    )
                    &&& to - from == self@.window(from_index as int, to_index as int).len()
                    &&& from < to ==> from == from_index
                },
                Err(error) => if from_index > MAX_LEAVES {
                    error@ == (Fault::IndexOverflow { what: "from_index"@ })
                } else {
                    to_index > MAX_LEAVES && error@ == (Fault::IndexOverflow { what: "to_index"@ })
                },
            },
    {
        if from_index > MAX_LEAVES {
            return Err(MirrorError::IndexOverflow { what: "from_index" });
        }
        if to_index > MAX_LEAVES {
            return Err(MirrorError::IndexOverflow { what: "to_index" });
        }
        let count: u64 = self.len();
        assert(count == self.entries@.len() && self.entries@.len() == self.entries.len());
        if from_index >= to_index || from_index >= count {
            assert(self@.entries.subrange(0, 0) =~= Seq::<EntryView>::empty());
            return Ok((0, 0));
        }
        if to_index <= count {
            Ok((from_index as usize, to_index as usize))
        } else {
            assert(self@.entries.subrange(from_index as int, count as int) =~= self@.entries.skip(
                from_index as int,
            ));
            Ok((from_index as usize, count as usize))
        }
    }

    /// The bytes of the held entries of `[from_index, to_index)`, in order.
    pub fn get_entries_range(&self, from_index: u64, to_index: u64) -> (found: MirrorResult<
        Vec<Vec<u8>>,
    >)
        requires
            self.wf(),
        ensures
            match found {
                Ok(list) => {
                    &&& from_index <= MAX_LEAVES
                    &&& to_index <= MAX_LEAVES
                    &&& bytes_view(list@) == envelopes_of(
                        self@.window(from_index as int, to_index as int),
                    )
                },
                Err(error) => overflow_of(from_index, to_index) == Some(error@),
            },
    {
        let (from, to): (usize, usize) = self.bounds(from_index, to_index)?;
        let mut list: Vec<Vec<u8>> = Vec::new();
        let mut i: usize = from;
        while i < to
            invariant
                from <= i <= to <= self.entries@.len(),
                bytes_view(list@) == envelopes_of(self@.entries.subrange(from as int, i as int)),
            decreases to - i,
        {
            let ghost before = bytes_view(list@);
            list.push(copy_bytes(self.entries[i].envelope.as_slice()));
            proof {
                assert(bytes_view(list@) =~= before.push(self.entries@[i as int].envelope@));
                assert(envelopes_of(self@.entries.subrange(from as int, i + 1)) =~= before.push(
                    self.entries@[i as int].envelope@,
                ));
            }
            i += 1;
        }
        Ok(list)
    }

    /// How many entries of `[from_index, to_index)` are held.
    pub fn count_entries(&self, from_index: u64, to_index: u64) -> (counted: MirrorResult<u64>)
        requires
            self.wf(),
        ensures
            match counted {
                Ok(count) => {
                    &&& from_index <= MAX_LEAVES
                    &&& to_index <= MAX_LEAVES
                    &&& count == self@.window(from_index as int, to_index as int).len()
                },
                Err(error) => overflow_of(from_index, to_index) == Some(error@),
            },
    {
        let (from, to): (usize, usize) = self.bounds(from_index, to_index)?;
        Ok((to - from) as u64)
    }

    /// The leaf hashes of the held entries of `[from_index, to_index)`, in order.
    pub fn leaf_hashes_range(&self, from_index: u64, to_index: u64) -> (found: MirrorResult<
        Vec<[u8; 32]>,
    >)
        requires
            self.wf(),
        ensures
            match found {
                Ok(list) => {
                    &&& from_index <= MAX_LEAVES
                    &&& to_index <= MAX_LEAVES
                    &&& hashes_view(list@) == leaves_of(
                        self@.window(from_index as int, to_index as int),
                    )
                },
                Err(error) => overflow_of(from_index, to_index) == Some(error@),
            },
    {
        let (from, to): (usize, usize) = self.bounds(from_index, to_index)?;
        let mut list: Vec<[u8; 32]> = Vec::new();
        let mut i: usize = from;
        while i < to
            invariant
                self.wf(),
                from <= i <= to <= self.entries@.len(),
                hashes_view(list@) == leaves_of(self@.entries.subrange(from as int, i as int)),
            decreases to - i,
        {
            let ghost before = hashes_view(list@);
            assert(self@.tree.leaves[i as int] == leaf_of(self@.entries[i as int].envelope));
            assert(leaves_of(self@.entries).len() == self.entries@.len());
            let leaf: [u8; 32] = self.tree.leaf(i as u64);
            list.push(leaf);
            proof {
                assert(hashes_view(list@) =~= before.push(leaf@));
                assert(leaves_of(self@.entries.subrange(from as int, i + 1)) =~= before.push(leaf@));
            }
            i += 1;
        }
        Ok(list)
    }

    /// The stored tree material.
    pub(crate) fn tree(&self) -> (tree: &TreeMaterial)
        requires
            self.wf(),
        ensures
            tree.wf(),
            tree@ == self@.tree,
            tree@.leaves.len() == self@.entries.len(),
    {
        assert(leaves_of(self@.entries).len() == self@.entries.len());
        &self.tree
    }

    /// The inclusion proof of the entry at `leaf_index` under the tree of `tree_size` entries.
    pub fn inclusion_proof(&self, leaf_index: u64, tree_size: u64) -> (opened: MirrorResult<
        InclusionProof,
    >)
        requires
            self.wf(),
        ensures
            match opened {
                Ok(p) => p.leaf_index == leaf_index && p.tree_size == tree_size && gives(
                    self@.tree.included(leaf_index as nat, tree_size as nat),
                    hashes_view(p.path@),
                ),
                Err(error) => refuses(
                    self@.tree.included(leaf_index as nat, tree_size as nat),
                    error,
                ),
            },
    {
        self.tree.inclusion_proof(leaf_index, tree_size)
    }

    /// The root over `size` entries from `offset` on.
    pub fn subtree_root(&self, offset: u64, size: u64) -> (root: MirrorResult<[u8; 32]>)
        requires
            self.wf(),
        ensures
            match root {
                Ok(hash) => gives(self@.tree.opened(offset as nat, size as nat), hash@),
                Err(error) => refuses(self@.tree.opened(offset as nat, size as nat), error),
            },
    {
        self.tree.open(offset, size)
    }

    /// The root over the first `tree_size` entries.
    pub fn log_root(&self, tree_size: u64) -> (root: MirrorResult<[u8; 32]>)
        requires
            self.wf(),
        ensures
            match root {
                Ok(hash) => gives(self@.root_at(tree_size as nat), hash@),
                Err(error) => refuses(self@.root_at(tree_size as nat), error),
            },
    {
        if tree_size == 0 {
            let none: Vec<[u8; 32]> = Vec::new();
            assert(hashes_view(none@) =~= Seq::<Seq<u8>>::empty());
            return Ok(atl_core::core::merkle::compute_root(none.as_slice()));
        }
        self.tree.open(0, tree_size)
    }

    /// The consistency proof between two sizes of the log.
    pub fn consistency_proof(&self, from_size: u64, to_size: u64) -> (opened: MirrorResult<
        ConsistencyProof,
    >)
        requires
            self.wf(),
        ensures
            match opened {
                Ok(p) => p.from_size == from_size && p.to_size == to_size && gives(
                    self@.link(from_size, to_size),
                    hashes_view(p.path@),
                ),
                Err(error) => refuses(self@.link(from_size, to_size), error),
            },
    {
        match self.consistency_proof_measured(from_size, to_size) {
            Ok((opened, _)) => Ok(opened),
            Err(error) => Err(error),
        }
    }

    /// The consistency proof between two sizes of the log, with what it read.
    pub fn consistency_proof_measured(&self, from_size: u64, to_size: u64) -> (opened: MirrorResult<
        (ConsistencyProof, TreeReadCost),
    >)
        requires
            self.wf(),
        ensures
            match opened {
                Ok((p, cost)) => {
                    &&& p.from_size == from_size
                    &&& p.to_size == to_size
                    &&& gives(self@.link(from_size, to_size), hashes_view(p.path@))
                    &&& cost.tree_nodes == saturated(
                        reads_over(
                            consistency_spans(from_size as nat, 0, to_size as nat, true),
                        ) as int,
                    )
                },
                Err(error) => refuses(self@.link(from_size, to_size), error),
            },
    {
        let have: u64 = self.count_entries(0, to_size)?;
        if have != to_size {
            return Err(MirrorError::IncompleteEntries { have, need: to_size });
        }
        assert(leaves_of(self@.entries).len() == self@.entries.len());
        self.tree.consistency_proof(from_size, to_size)
    }

    /// Record an authenticated checkpoint in the series.
    pub fn insert_checkpoint(&mut self, cp: &Checkpoint) -> (recorded: MirrorResult<InsertOutcome>)
        requires
            old(self).wf(),
        ensures
            final(self).wf(),
            match recorded {
                Ok(done) => gives(old(self)@.recording(cp@), (final(self)@, done)),
                Err(error) => refuses(old(self)@.recording(cp@), error) && final(self)@ == old(
                    self,
                )@,
            },
    {
        if cp.tree_size > MAX_LEAVES {
            return Err(MirrorError::IndexOverflow { what: "tree_size" });
        }
        let ghost before = self@;
        let done: InsertOutcome = offer(&mut self.checkpoints, cp)?;
        proof {
            an_offer_keeps_the_order(before.checkpoints, cp@);
            assert(self@ =~= (StoreView { checkpoints: self@.checkpoints, ..before }));
        }
        Ok(done)
    }

    /// The checkpoint of a tree size with the latest time.
    pub fn get_checkpoint(&self, tree_size: u64) -> (found: MirrorResult<Option<Checkpoint>>)
        requires
            self.wf(),
        ensures
            match found {
                Ok(Some(cp)) => tree_size <= MAX_LEAVES && latest_at(self@.checkpoints, tree_size)
                    == Some(cp@),
                Ok(None) => tree_size <= MAX_LEAVES && latest_at(
                    self@.checkpoints,
                    tree_size,
                ) is None,
                Err(error) => tree_size > MAX_LEAVES && error@ == (Fault::IndexOverflow {
                    what: "tree_size"@,
                }),
            },
    {
        if tree_size > MAX_LEAVES {
            return Err(MirrorError::IndexOverflow { what: "tree_size" });
        }
        let ghost listed = self@.checkpoints;
        let mut i: usize = self.checkpoints.len();
        assert(listed.take(i as int) =~= listed);
        while i > 0
            invariant
                i <= self.checkpoints@.len(),
                tree_size <= MAX_LEAVES,
                listed == checkpoints_view(self.checkpoints@),
                listed == self@.checkpoints,
                latest_at(listed, tree_size) == latest_at(listed.take(i as int), tree_size),
            decreases i,
        {
            assert(listed.take(i as int).drop_last() =~= listed.take(i - 1));
            assert(listed.take(i as int).last() == self.checkpoints@[i - 1]@);
            if self.checkpoints[i - 1].tree_size == tree_size {
                return Ok(Some(self.checkpoints[i - 1].clone()));
            }
            i -= 1;
        }
        Ok(None)
    }

    /// Record a checkpoint as the anchor of a rotation. One that an earlier anchor supersedes is
    /// not kept among the anchors, only as evidence of its root where nothing else shows it.
    pub fn insert_rotation_checkpoint(&mut self, manifest_entry_index: u64, cp: &Checkpoint) -> (recorded:
        MirrorResult<InsertOutcome>)
        requires
            old(self).wf(),
        ensures
            final(self).wf(),
            match recorded {
                Ok(done) => gives(
                    old(self)@.anchoring(manifest_entry_index, cp@),
                    (final(self)@, done),
                ),
                Err(error) => refuses(old(self)@.anchoring(manifest_entry_index, cp@), error)
                    && final(self)@ == old(self)@,
            },
    {
        if manifest_entry_index > MAX_LEAVES {
            return Err(MirrorError::IndexOverflow { what: "manifest_entry_index" });
        }
        if cp.tree_size > MAX_LEAVES {
            return Err(MirrorError::IndexOverflow { what: "tree_size" });
        }
        let ghost before = self@;
        let done: InsertOutcome = anchor_or_keep(
            &self.checkpoints,
            &mut self.anchors,
            &mut self.superseded,
            manifest_entry_index,
            cp,
        )?;
        proof {
            an_anchor_keeps_the_order(before.anchors, manifest_entry_index, cp@);
            evidence_keeps_the_order(before.superseded, cp@);
            assert(self@ =~= (StoreView {
                anchors: self@.anchors,
                superseded: self@.superseded,
                ..before
            }));
        }
        Ok(done)
    }

    /// The anchor held for a rotation: the one with the smallest tree size and, of these, the
    /// earliest time.
    pub fn get_rotation_checkpoint(&self, manifest_entry_index: u64) -> (found: MirrorResult<
        Option<Checkpoint>,
    >)
        requires
            self.wf(),
        ensures
            match found {
                Ok(Some(cp)) => manifest_entry_index <= MAX_LEAVES && anchor_for(
                    self@.anchors,
                    manifest_entry_index,
                ) == Some(cp@),
                Ok(None) => manifest_entry_index <= MAX_LEAVES && anchor_for(
                    self@.anchors,
                    manifest_entry_index,
                ) is None,
                Err(error) => manifest_entry_index > MAX_LEAVES && error@
                    == (Fault::IndexOverflow { what: "manifest_entry_index"@ }),
            },
    {
        if manifest_entry_index > MAX_LEAVES {
            return Err(MirrorError::IndexOverflow { what: "manifest_entry_index" });
        }
        match find_anchor(&self.anchors, manifest_entry_index) {
            Some(cp) => Ok(Some(cp.clone())),
            None => Ok(None),
        }
    }

    /// Every rotation anchor held, in order, with the rotation it anchors.
    pub fn all_rotation_checkpoints(&self) -> (found: MirrorResult<Vec<(u64, Checkpoint)>>)
        requires
            self.wf(),
        ensures
            match found {
                Ok(list) => anchors_view(list@) == self@.anchors,
                Err(_) => false,
            },
    {
        Ok(copy_anchors(&self.anchors))
    }

    /// Every superseded anchor that is kept as evidence, in order.
    pub fn superseded_checkpoints(&self) -> (found: Vec<Checkpoint>)
        requires
            self.wf(),
        ensures
            checkpoints_view(found@) == self@.superseded,
    {
        copy_checkpoints(&self.superseded)
    }

    /// Every authenticated checkpoint, in order.
    pub fn all_checkpoints(&self) -> (found: MirrorResult<Vec<Checkpoint>>)
        requires
            self.wf(),
        ensures
            match found {
                Ok(list) => checkpoints_view(list@) == self@.checkpoints,
                Err(_) => false,
            },
    {
        Ok(copy_checkpoints(&self.checkpoints))
    }

    /// Record a checkpoint in the series, where it is a member, and as the anchor of rotations:
    /// all of it or nothing.
    pub(crate) fn record(&mut self, cp: &Checkpoint, member: bool, indexes: &Vec<u64>) -> (admitted:
        MirrorResult<()>)
        requires
            old(self).wf(),
            cp.tree_size <= MAX_LEAVES,
            forall|i: int| 0 <= i < indexes@.len() ==> #[trigger] indexes@[i] <= MAX_LEAVES,
        ensures
            final(self).wf(),
            match admitted {
                Ok(()) => gives(old(self)@.admitting(cp@, member, indexes@), final(self)@),
                Err(error) => refuses(old(self)@.admitting(cp@, member, indexes@), error)
                    && final(self)@ == old(self)@,
            },
    {
        let ghost before = self@;
        let mut series: Vec<Checkpoint> = copy_checkpoints(&self.checkpoints);
        if member {
            let _ = offer(&mut series, cp)?;
            proof {
                an_offer_keeps_the_order(before.checkpoints, cp@);
            }
        }
        let ghost base = StoreView { checkpoints: checkpoints_view(series@), ..before };
        let mut anchors: Vec<(u64, Checkpoint)> = copy_anchors(&self.anchors);
        let mut superseded: Vec<Checkpoint> = copy_checkpoints(&self.superseded);
        let mut i: usize = 0;
        proof {
            assert(base =~= (StoreView {
                anchors: anchors_view(anchors@),
                superseded: checkpoints_view(superseded@),
                ..base
            }));
            assert(indexes@.take(0) =~= Seq::<u64>::empty());
            assert(indexes@.take(indexes@.len() as int) =~= indexes@);
        }
        while i < indexes.len()
            invariant
                i <= indexes@.len(),
                cp.tree_size <= MAX_LEAVES,
                forall|k: int| 0 <= k < indexes@.len() ==> #[trigger] indexes@[k] <= MAX_LEAVES,
                *self == *old(self),
                self.wf(),
                before == self@,
                before.admitting(cp@, member, indexes@) == base.anchoring_all(indexes@, cp@),
                indexes@.take(indexes@.len() as int) == indexes@,
                base == (StoreView { checkpoints: checkpoints_view(series@), ..before }),
                in_weak_order(anchor_checkpoints(anchors_view(anchors@))),
                in_weak_order(checkpoints_view(superseded@)),
                gives(
                    base.anchoring_all(indexes@.take(i as int), cp@),
                    (StoreView {
                        anchors: anchors_view(anchors@),
                        superseded: checkpoints_view(superseded@),
                        ..base
                    }),
                ),
            decreases indexes.len() - i,
        {
            proof {
                assert(indexes@.take(i + 1).drop_last() =~= indexes@.take(i as int));
                assert(indexes@.take(i + 1).last() == indexes@[i as int]);
                an_anchor_keeps_the_order(anchors_view(anchors@), indexes@[i as int], cp@);
                evidence_keeps_the_order(checkpoints_view(superseded@), cp@);
            }
            let ghost held = StoreView {
                anchors: anchors_view(anchors@),
                superseded: checkpoints_view(superseded@),
                ..base
            };
            match anchor_or_keep(&series, &mut anchors, &mut superseded, indexes[i], cp) {
                Ok(_) => {
                    assert((StoreView {
                        anchors: anchors_view(anchors@),
                        superseded: checkpoints_view(superseded@),
                        ..base
                    }) =~= (StoreView {
                        anchors: anchors_view(anchors@),
                        superseded: checkpoints_view(superseded@),
                        ..held
                    }));
                },
                Err(error) => {
                    proof {
                        a_refused_anchor_stands(base, indexes@, cp@, i + 1);
                    }
                    return Err(error);
                },
            }
            i += 1;
        }
        self.checkpoints = series;
        self.anchors = anchors;
        self.superseded = superseded;
        assert(self@ =~= (StoreView {
            anchors: anchors_view(anchors@),
            superseded: checkpoints_view(superseded@),
            ..base
        }));
        Ok(())
    }

    /// Lose a stored node of the tree, as a damaged database does.
    pub fn forget_node(&mut self, level: u32, node_index: u64)
        requires
            old(self).wf(),
            level >= 1,
        ensures
            final(self).wf(),
            final(self)@ == (StoreView {
                tree: TreeView {
                    leaves: old(self)@.tree.leaves,
                    held: old(self)@.tree.held.remove((level as nat, node_index as nat)),
                },
                ..old(self)@
            }),
    {
        let ghost before = self@;
        self.tree.forget(level, node_index);
        assert(self@.entries =~= before.entries);
    }
}

/// Which bound of a range is beyond what can be addressed, if one is.
pub open spec fn overflow_of(from_index: u64, to_index: u64) -> Option<Fault> {
    if from_index > MAX_LEAVES {
        Some(Fault::IndexOverflow { what: "from_index"@ })
    } else if to_index > MAX_LEAVES {
        Some(Fault::IndexOverflow { what: "to_index"@ })
    } else {
        None
    }
}

/// A refused anchor within a list of rotations stands for the whole list.
proof fn a_refused_anchor_stands(store: StoreView, indexes: Seq<u64>, cp: CheckpointView, count: int)
    requires
        0 <= count <= indexes.len(),
        store.anchoring_all(indexes.take(count), cp) is Err,
    ensures
        store.anchoring_all(indexes, cp) == store.anchoring_all(indexes.take(count), cp),
    decreases indexes.len(),
{
    if count < indexes.len() {
        assert(indexes.drop_last().take(count) =~= indexes.take(count));
        a_refused_anchor_stands(store, indexes.drop_last(), cp, count);
    } else {
        assert(indexes.take(count) =~= indexes);
    }
}

/// An offer leaves a series in order.
proof fn an_offer_keeps_the_order(list: Seq<CheckpointView>, cp: CheckpointView)
    requires
        in_series_order(list),
    ensures
        offered(list, cp) matches Ok((after, _)) ==> in_series_order(after),
{
    if let Ok((_, InsertOutcome::Inserted)) = offered(list, cp) {
        inserting_at_rank_keeps_series_order(list, cp);
    }
}

/// Evidence is kept in order.
proof fn evidence_keeps_the_order(list: Seq<CheckpointView>, cp: CheckpointView)
    requires
        in_weak_order(list),
    ensures
        forall|series: Seq<CheckpointView>, anchors: Seq<(u64, CheckpointView)>|
            in_weak_order(#[trigger] superseded_after(series, anchors, list, cp)),
{
    inserting_at_rank_keeps_weak_order(list, cp);
}

/// An offered anchor leaves the anchors in order.
proof fn an_anchor_keeps_the_order(list: Seq<(u64, CheckpointView)>, index: u64, cp: CheckpointView)
    requires
        in_weak_order(anchor_checkpoints(list)),
    ensures
        anchored(list, index, cp) matches Ok((after, _)) ==> in_weak_order(
            anchor_checkpoints(after),
        ),
{
    if let Ok((after, InsertOutcome::Inserted)) = anchored(list, index, cp) {
        let r = rank(anchor_checkpoints(list), cp) as int;
        rank_parts_the_list(anchor_checkpoints(list), cp);
        inserting_at_rank_keeps_weak_order(anchor_checkpoints(list), cp);
        assert(anchor_checkpoints(after) =~= anchor_checkpoints(list).insert(r, cp));
    }
}

impl Store {
    /// A store from the rows of a database. Its tree is made of the entry bytes, whole, whatever
    /// leaf hashes and nodes were stored; rows that cannot be brought up to a store are refused,
    /// each with `StoreInit`.
    pub fn restore(rows: Rows) -> (restored: MirrorResult<Self>)
        ensures
            match restored {
                Ok(store) => {
                    &&& rows.fault() is None
                    &&& store.wf()
                    &&& store@.staged == staged_rows(rows.staged@)
                    &&& store@.entries == entries_of(rows.entries@)
                    &&& store@.tree.held == complete_nodes(rows.entries@.len())
                    &&& store@.checkpoints == checkpoints_view(rows.checkpoints@)
                    &&& store@.anchors == anchors_view(rows.anchors@)
                    &&& store@.superseded == checkpoints_view(rows.superseded@)
                },
                Err(error) => error@ is StoreInit && rows.fault() == Some(error@),
            },
    {
        let Rows {
            staged: staged_list,
            entries: entry_list,
            node_count,
            checkpoints,
            anchors,
            superseded,
        } = rows;
        if entry_list.len() as u64 > MAX_LEAVES {
            return Err(MirrorError::StoreInit("there are too many entry rows".to_owned()));
        }
        let short: bool = node_count != expected_nodes(entry_list.len() as u64);
        let (entries, positions, leaves) = restore_entries(entry_list, short)?;
        assert(hashes_view(leaves@).len() == rows.entries@.len());
        let tree: TreeMaterial = TreeMaterial::over(&leaves);
        check_series(&checkpoints)?;
        check_anchors(&anchors)?;
        check_superseded(&superseded)?;
        let staged: StringHashMap<Vec<u8>> = restore_staged(staged_list);
        let store = Store { staged, entries, positions, tree, checkpoints, anchors, superseded };
        proof {
            assert(leaves_of(store@.entries) =~= row_leaves(rows.entries@));
            assert forall|i: int, j: int| 0 <= i < j < store@.entries.len() implies (
            #[trigger] store@.entries[i]).entry_id != (#[trigger] store@.entries[j]).entry_id by {
                assert(store.positions@[store.entries@[i].entry_id@] == i);
                assert(store.positions@[store.entries@[j].entry_id@] == j);
            }
            assert(store@.valid());
            assert(store.wf());
        }
        Ok(store)
    }

    /// One node of the tree: level 0 holds the leaf hashes, a higher level the roots of
    /// complete subtrees. `None` where it is not stored.
    pub fn tree_node(&self, level: u32, index: u64) -> (node: Option<[u8; 32]>)
        requires
            self.wf(),
        ensures
            node is Some <==> self@.tree.has(level as nat, index as nat),
            node is Some ==> node->0@ == span_root(
                leaves_of(self@.entries),
                (index * width(level as nat)) as nat,
                width(level as nat),
            ),
    {
        self.tree.node(level, index)
    }

    /// Whether node rows hold exactly the interior nodes of the log: they are as many as it
    /// completes, each holds the root of its node, and no node occurs twice. Others are to be
    /// written anew.
    pub fn has_cache(&self, rows: &Vec<NodeRecord>) -> (whole: bool)
        requires
            self.wf(),
            self@.tree.held == complete_nodes(self@.entries.len()),
        ensures
            whole == is_whole_cache(rows@, leaves_of(self@.entries)),
    {
        let ghost leaves = leaves_of(self@.entries);
        if rows.len() as u64 != expected_nodes(self.entries.len() as u64) {
            return false;
        }
        let mut i: usize = 0;
        while i < rows.len()
            invariant
                i <= rows@.len(),
                self.wf(),
                self@.tree.held == complete_nodes(self@.entries.len()),
                leaves == leaves_of(self@.entries),
                forall|k: int| 0 <= k < i ==> is_true_node(#[trigger] rows@[k], leaves),
            decreases rows.len() - i,
        {
            let row: &NodeRecord = &rows[i];
            if row.level == 0 {
                return false;
            }
            match self.tree.node(row.level, row.node_index) {
                Some(hash) => {
                    if !same_bytes(hash.as_slice(), row.hash.as_slice()) {
                        return false;
                    }
                },
                None => {
                    return false;
                },
            }
            i += 1;
        }
        tell_apart(rows, self.entries.len() as u64)
    }

    /// The id that the entry at an index is filed under.
    pub fn entry_id_at(&self, entry_index: u64) -> (id: Option<String>)
        requires
            self.wf(),
        ensures
            match id {
                Some(text) => entry_index < self@.entries.len() && text@
                    == self@.entries[entry_index as int].entry_id,
                None => entry_index >= self@.entries.len(),
            },
    {
        if entry_index < self.entries.len() as u64 {
            Some(self.entries[entry_index as usize].entry_id.clone())
        } else {
            None
        }
    }

    /// The stored nodes that the entry at `entry_index` completed, from level 1 upwards: those
    /// whose last leaf is that of the entry.
    pub fn nodes_completed_by(&self, entry_index: u64) -> (nodes: Vec<NodeRecord>)
        requires
            self.wf(),
            entry_index < self@.entries.len(),
        ensures
            forall|i: int|
                0 <= i < nodes@.len() ==> {
                    let node = #[trigger] nodes@[i];
                    &&& self@.tree.held.contains((node.level as nat, node.node_index as nat))
                    &&& (node.node_index + 1) * width(node.level as nat) == entry_index + 1
                    &&& is_true_node(node, leaves_of(self@.entries))
                },
            forall|level: nat, index: nat|
                #![trigger self@.tree.held.contains((level, index))]
                1 <= level && (index + 1) * width(level) == entry_index + 1
                    && self@.tree.held.contains((level, index)) ==> exists|i: int|
                    0 <= i < nodes@.len() && (#[trigger] nodes@[i]).level == level
                        && nodes@[i].node_index == index,
    {
        let mut nodes: Vec<NodeRecord> = Vec::new();
        let count: u64 = entry_index + 1;
        let mut level: u32 = 1;
        let mut wide: u64 = 2;
        proof {
            width_at_64();
            reveal_with_fuel(width, 2);
        }
        while wide <= count && count % wide == 0
            invariant
                self.wf(),
                count == entry_index + 1,
                entry_index < self@.entries.len() <= MAX_LEAVES,
                1 <= level <= 63,
                wide == width(level as nat),
                wide >= 2,
                width(63) == 0x8000_0000_0000_0000,
                forall|i: int|
                    0 <= i < nodes@.len() ==> {
                        let node = #[trigger] nodes@[i];
                        &&& self@.tree.held.contains((node.level as nat, node.node_index as nat))
                        &&& (node.node_index + 1) * width(node.level as nat) == entry_index + 1
                        &&& is_true_node(node, leaves_of(self@.entries))
                    },
                forall|l: nat, index: nat|
                    #![trigger self@.tree.held.contains((l, index))]
                    1 <= l < level && (index + 1) * width(l) == entry_index + 1
                        && self@.tree.held.contains((l, index)) ==> exists|i: int|
                        0 <= i < nodes@.len() && (#[trigger] nodes@[i]).level == l
                            && nodes@[i].node_index == index,
            decreases 64 - level,
        {
            assert(count / wide >= 1) by (nonlinear_arith)
                requires
                    wide >= 2,
                    wide <= count,
            ;
            let node_index: u64 = count / wide - 1;
            let ghost listed = nodes@;
            proof {
                assert((node_index + 1) * wide == count) by (nonlinear_arith)
                    requires
                        wide >= 2,
                        count % wide == 0,
                        wide <= count,
                        node_index == count / wide - 1,
                ;
                assert(self@.tree.leaves == leaves_of(self@.entries));
            }
            if let Some(hash) = self.tree.node(level, node_index) {
                nodes.push(NodeRecord { level, node_index, hash: copy_bytes(hash.as_slice()) });
            }
            proof {
                assert forall|l: nat, index: nat|
                    #![trigger self@.tree.held.contains((l, index))]
                    1 <= l < level + 1 && (index + 1) * width(l) == entry_index + 1
                        && self@.tree.held.contains((l, index)) implies exists|i: int|
                    0 <= i < nodes@.len() && (#[trigger] nodes@[i]).level == l
                        && nodes@[i].node_index == index by {
                    if l == level {
                        assert(index == node_index) by (nonlinear_arith)
                            requires
                                (index + 1) * wide == count,
                                (node_index + 1) * wide == count,
                                wide >= 2,
                        ;
                        assert(nodes@[nodes@.len() - 1].node_index == index);
                    } else {
                        let k = choose|i: int|
                            0 <= i < listed.len() && (#[trigger] listed[i]).level == l
                                && listed[i].node_index == index;
                        assert(nodes@[k] == listed[k]);
                    }
                }
                if level == 63 {
                    assert(false);
                }
            }
            level = level + 1;
            wide = wide * 2;
        }
        proof {
            assert forall|l: nat, index: nat|
                #![trigger self@.tree.held.contains((l, index))]
                1 <= l && (index + 1) * width(l) == entry_index + 1 && self@.tree.held.contains(
                    (l, index),
                ) implies l < level by {
                if l >= level {
                    width_is_positive(l);
                    vstd::arithmetic::div_mod::lemma_mod_multiples_basic(
                        (index + 1) as int,
                        width(l) as int,
                    );
                    width_divides(level as nat, l, count as nat);
                    width_is_monotone(level as nat, l);
                    assert((index + 1) * width(l) >= width(l)) by (nonlinear_arith);
                }
            }
        }
        nodes
    }
}

/// The entries of a list of rows.
pub open spec fn entries_of(rows: Seq<EntryRecord>) -> Seq<EntryView> {
    Seq::new(
        rows.len(),
        |i: int| EntryView { entry_id: rows[i].entry_id@, envelope: rows[i].envelope@ },
    )
}

/// The staged map of a list of rows.
fn restore_staged(rows: Vec<(String, Vec<u8>)>) -> (staged: StringHashMap<Vec<u8>>)
    ensures
        staged@.map_values(|bytes: Vec<u8>| bytes@) == staged_rows(rows@),
{
    let mut staged: StringHashMap<Vec<u8>> = StringHashMap::new();
    let mut i: usize = 0;
    assert(staged@.map_values(|bytes: Vec<u8>| bytes@) =~= Map::<Seq<char>, Seq<u8>>::empty());
    while i < rows.len()
        invariant
            i <= rows@.len(),
            staged@.map_values(|bytes: Vec<u8>| bytes@) == staged_rows(rows@.take(i as int)),
        decreases rows.len() - i,
    {
        let ghost before = staged@;
        staged.insert(rows[i].0.clone(), copy_bytes(rows[i].1.as_slice()));
        proof {
            assert(rows@.take(i + 1).drop_last() =~= rows@.take(i as int));
            assert(staged@.map_values(|bytes: Vec<u8>| bytes@) =~= before.map_values(
                |bytes: Vec<u8>| bytes@,
            ).insert(rows@[i as int].0@, rows@[i as int].1@));
        }
        i += 1;
    }
    assert(rows@.take(i as int) =~= rows@);
    staged
}

/// The canonical entries of a list of rows, with their positions and leaf hashes.
fn restore_entries(rows: Vec<EntryRecord>, short: bool) -> (restored: MirrorResult<
    (Vec<EntryRow>, StringHashMap<u64>, Vec<[u8; 32]>),
>)
    requires
        rows@.len() <= MAX_LEAVES,
    ensures
        match restored {
            Ok((entries, positions, leaves)) => {
                &&& entries_fault(rows@, short) is None
                &&& rows_view(entries@) == entries_of(rows@)
                &&& hashes_view(leaves@) == row_leaves(rows@)
                &&& positioned(entries@, positions@)
            },
            Err(error) => error@ is StoreInit && entries_fault(rows@, short) == Some(error@),
        },
{
    let mut entries: Vec<EntryRow> = Vec::new();
    let mut positions: StringHashMap<u64> = StringHashMap::new();
    let mut leaves: Vec<[u8; 32]> = Vec::new();
    let mut i: usize = 0;
    while i < rows.len()
        invariant
            i <= rows@.len() <= MAX_LEAVES,
            entries_fault(rows@.take(i as int), short) is None,
            rows_view(entries@) == entries_of(rows@.take(i as int)),
            hashes_view(leaves@) == row_leaves(rows@.take(i as int)),
            entries@.len() == i,
            positioned(entries@, positions@),
        decreases rows.len() - i,
    {
        let row: &EntryRecord = &rows[i];
        let ghost seen = rows@.take(i as int);
        let ghost more = rows@.take(i + 1);
        proof {
            assert(more.drop_last() =~= seen);
            assert(more.last() == row);
            if entries_fault(more, short) is Some {
                an_entry_fault_stands(rows@, short, i + 1);
            }
        }
        if row.entry_index != i as u64 {
            return Err(MirrorError::StoreInit("entry rows are not contiguous".to_owned()));
        }
        proof {
            assert forall|j: int| 0 <= j < i implies (#[trigger] more[j]).entry_id@
                == entries@[j].entry_id@ by {
                assert(rows_view(entries@)[j] == entries_of(seen)[j]);
            }
            if positions@.contains_key(row.entry_id@) {
                let at = positions@[row.entry_id@] as int;
                assert(more[at].entry_id@ == row.entry_id@);
            } else {
                assert forall|j: int| 0 <= j < i implies (#[trigger] more[j]).entry_id@
                    != row.entry_id@ by {
                    assert(entries@[j].entry_id@ == more[j].entry_id@);
                }
            }
        }
        if positions.contains_key(row.entry_id.as_str()) {
            return Err(MirrorError::StoreInit("an entry id occurs twice".to_owned()));
        }
        let leaf: [u8; 32] = checked_leaf(row, short)?;
        let ghost rows_before = entries@;
        let ghost places = positions@;
        let ghost listed = hashes_view(leaves@);
        positions.insert(row.entry_id.clone(), i as u64);
        entries.push(
            EntryRow { entry_id: row.entry_id.clone(), envelope: copy_bytes(row.envelope.as_slice()) },
        );
        leaves.push(leaf);
        proof {
            let entry = EntryView { entry_id: row.entry_id@, envelope: row.envelope@ };
            assert(rows_view(entries@) =~= rows_view(rows_before).push(entry));
            assert(entries_of(more) =~= entries_of(seen).push(entry));
            assert(hashes_view(leaves@) =~= listed.push(leaf@));
            assert(row_leaves(more) =~= row_leaves(seen).push(leaf@));
            assert forall|k: int| 0 <= k < entries@.len() implies positions@.contains_key(
                (#[trigger] entries@[k]).entry_id@,
            ) && positions@[entries@[k].entry_id@] == k by {
                if k < i {
                    assert(entries@[k] == rows_before[k]);
                    assert(places.contains_key(rows_before[k].entry_id@));
                }
            }
            assert forall|id: Seq<char>| #[trigger]
                positions@.contains_key(id) implies positions@[id] < entries@.len()
                && entries@[positions@[id] as int].entry_id@ == id by {
                if id != row.entry_id@ {
                    assert(places.contains_key(id));
                }
            }
        }
        i += 1;
    }
    assert(rows@.take(i as int) =~= rows@);
    Ok((entries, positions, leaves))
}

/// Whether the positions are those of the rows: each row's id has its index, and nothing else
/// has one.
spec fn positioned(rows: Seq<EntryRow>, positions: Map<Seq<char>, u64>) -> bool {
    &&& forall|i: int|
        0 <= i < rows.len() ==> positions.contains_key((#[trigger] rows[i]).entry_id@)
            && positions[rows[i].entry_id@] == i
    &&& forall|id: Seq<char>| #[trigger]
        positions.contains_key(id) ==> positions[id] < rows.len()
            && rows[positions[id] as int].entry_id@ == id
}

// ---- laws ----

/// The log only grows, one entry at the end at a time: a promotion leaves every entry where it
/// was, and puts the staged bytes at the next index or finds them where they already are.
pub proof fn promotion_appends_or_changes_nothing(store: StoreView, index: u64, id: Seq<char>)
    ensures
        store.promoting(index, id) matches Ok((after, done)) ==> match done {
            InsertOutcome::Inserted => {
                &&& index == store.entries.len()
                &&& after.entries == store.entries.push(
                    EntryView { entry_id: id, envelope: store.staged[id] },
                )
                &&& after.staged == store.staged
                &&& after.checkpoints == store.checkpoints
                &&& after.anchors == store.anchors
            },
            InsertOutcome::AlreadyPresent => after == store,
        },
{
}

/// Promoting the same entry to the same index again changes nothing and says so.
pub proof fn promotion_again_is_idempotent(store: StoreView, index: u64, id: Seq<char>)
    ensures
        store.promoting(index, id) matches Ok((after, _)) ==> after.promoting(index, id) == Ok::<
            (StoreView, InsertOutcome),
            Fault,
        >((after, InsertOutcome::AlreadyPresent)),
{
}

/// A candidate never stands in another's way: staging other bytes under another id leaves
/// whether and how an entry is promoted as it was.
pub proof fn a_candidate_never_blocks_another(
    store: StoreView,
    index: u64,
    id: Seq<char>,
    other: Seq<char>,
    bytes: Seq<u8>,
)
    requires
        other != id,
    ensures
        store.staging(other, bytes) matches Ok((crowded, _)) ==> match store.promoting(index, id) {
            Ok((after, done)) => crowded.promoting(index, id) == Ok::<
                (StoreView, InsertOutcome),
                Fault,
            >((StoreView { staged: crowded.staged, ..after }, done)),
            Err(fault) => crowded.promoting(index, id) == Err::<(StoreView, InsertOutcome), Fault>(
                fault,
            ),
        },
{
    if let Ok((crowded, _)) = store.staging(other, bytes) {
        assert(crowded.index_of(id) == store.index_of(id));
    }
}

/// A store that lost no tree node loses none by growing, and is never refused for one.
pub proof fn a_whole_store_stays_whole(store: StoreView, index: u64, id: Seq<char>)
    requires
        store.valid(),
        store.tree.held == complete_nodes(store.entries.len()),
    ensures
        match store.promoting(index, id) {
            Ok((after, _)) => after.tree.held == complete_nodes(after.entries.len()),
            Err(fault) => !(fault is TreeMaterialMissing),
        },
{
    assert(store.tree.leaves.len() == store.entries.len());
    if store.entries.len() < MAX_LEAVES && store.staged.contains_key(id) {
        whole_material_stays_whole(store.tree, leaf_of(store.staged[id]));
    }
}

/// The series only grows: recording a checkpoint keeps every member, adds at most that one, and
/// recording it again changes nothing.
pub proof fn the_series_only_grows(store: StoreView, cp: CheckpointView)
    requires
        store.valid(),
    ensures
        store.recording(cp) matches Ok((after, _)) ==> {
            &&& forall|other: CheckpointView| #[trigger]
                after.checkpoints.contains(other) <==> store.checkpoints.contains(other) || other
                    == cp
            &&& after.recording(cp) == Ok::<(StoreView, InsertOutcome), Fault>(
                (after, InsertOutcome::AlreadyPresent),
            )
            &&& after.entries == store.entries
            &&& after.anchors == store.anchors
        },
{
    if let Ok((after, done)) = store.recording(cp) {
        let list = store.checkpoints;
        let more = after.checkpoints;
        member_at_finds(list, cp.tree_size, cp.checkpoint_time);
        series_order_is_weak_order(list);
        rank_parts_the_list(list, cp);
        let r = rank(list, cp) as int;
        if done == InsertOutcome::Inserted {
            assert(more == list.insert(r, cp));
            assert forall|other: CheckpointView| #[trigger] more.contains(other) <==> list.contains(
                other,
            ) || other == cp by {
                if list.contains(other) {
                    let k = choose|k: int| 0 <= k < list.len() && list[k] == other;
                    assert(more[if k < r { k } else { k + 1 }] == other);
                }
                if other == cp {
                    assert(more[r] == other);
                }
                if more.contains(other) {
                    let k = choose|k: int| 0 <= k < more.len() && more[k] == other;
                    if k < r {
                        assert(list[k] == other);
                    } else if k > r {
                        assert(list[k - 1] == other);
                    }
                }
            }
            assert(more.contains(cp));
        }
        an_offer_keeps_the_order(list, cp);
        a_member_is_found(more, cp);
        assert(after.recording(cp)->Ok_0.0 =~= after);
    }
}

/// In an ordered series a member is the one found at its place.
proof fn a_member_is_found(list: Seq<CheckpointView>, cp: CheckpointView)
    requires
        in_series_order(list),
        list.contains(cp),
    ensures
        member_at(list, cp.tree_size, cp.checkpoint_time) == Some(cp),
{
    member_at_finds(list, cp.tree_size, cp.checkpoint_time);
    let k = choose|k: int| 0 <= k < list.len() && list[k] == cp;
    assert(list[k].tree_size == cp.tree_size);
    let found = member_at(list, cp.tree_size, cp.checkpoint_time)->0;
    let m = choose|m: int| 0 <= m < list.len() && list[m] == found;
    order_is_total(list[k], list[m]);
    if k < m {
        assert(comes_before(list[k], list[m]));
    } else if m < k {
        assert(comes_before(list[m], list[k]));
    }
}

/// The anchor that is served for a rotation is the earliest that was ever accepted for it:
/// accepting one leaves the earlier of it and the one held, and no other rotation's anchor
/// changes.
pub proof fn the_earliest_anchor_is_served(store: StoreView, index: u64, cp: CheckpointView)
    requires
        store.valid(),
    ensures
        store.anchoring(index, cp) matches Ok((after, _)) ==> {
            &&& anchor_for(after.anchors, index) == Some(
                match anchor_for(store.anchors, index) {
                    Some(held) => if comes_before(cp, held) {
                        cp
                    } else {
                        held
                    },
                    None => cp,
                },
            )
            &&& forall|other: u64|
                other != index ==> #[trigger] anchor_for(after.anchors, other) == anchor_for(
                    store.anchors,
                    other,
                )
        },
{
    if let Ok((after, done)) = store.anchoring(index, cp) {
        let list = store.anchors;
        if done == InsertOutcome::Inserted {
            rank_parts_the_list(anchor_checkpoints(list), cp);
            let r = rank(anchor_checkpoints(list), cp) as int;
            an_inserted_anchor_leads(list, index, cp, r);
            assert forall|other: u64| other != index implies #[trigger] anchor_for(
                after.anchors,
                other,
            ) == anchor_for(list, other) by {
                another_anchor_is_kept(list, r, index, cp, other);
            }
        } else {
            if anchor_at(list, index, cp.tree_size, cp.checkpoint_time) is Some {
                an_anchor_at_its_place(list, index, cp);
            }
        }
    }
}

/// Where an anchor of a rotation is held at a checkpoint's place, the one served does not come
/// after it.
proof fn an_anchor_at_its_place(list: Seq<(u64, CheckpointView)>, index: u64, cp: CheckpointView)
    requires
        in_weak_order(anchor_checkpoints(list)),
        anchor_at(list, index, cp.tree_size, cp.checkpoint_time) is Some,
    ensures
        anchor_for(list, index) is Some,
        !comes_before(cp, anchor_for(list, index)->0),
    decreases list.len(),
{
    let rest = list.drop_first();
    assert forall|i: int, j: int|
        0 <= i < j < anchor_checkpoints(rest).len() implies !comes_before(
        #[trigger] anchor_checkpoints(rest)[j],
        #[trigger] anchor_checkpoints(rest)[i],
    ) by {
        assert(anchor_checkpoints(rest)[i] == anchor_checkpoints(list)[i + 1]);
        assert(anchor_checkpoints(rest)[j] == anchor_checkpoints(list)[j + 1]);
    }
    if list[0].0 == index {
        an_anchor_is_listed(list, index, cp);
        let k = choose|k: int|
            0 <= k < list.len() && (#[trigger] list[k]).0 == index && same_place(list[k].1, cp);
        order_is_total(list[0].1, list[k].1);
        if k > 0 {
            assert(!comes_before(anchor_checkpoints(list)[k], anchor_checkpoints(list)[0]));
        }
        order_is_total(cp, list[0].1);
        order_is_total(list[k].1, cp);
    } else {
        an_anchor_at_its_place(rest, index, cp);
    }
}

/// An anchor that is found at a place is one of the list.
proof fn an_anchor_is_listed(list: Seq<(u64, CheckpointView)>, index: u64, cp: CheckpointView)
    requires
        anchor_at(list, index, cp.tree_size, cp.checkpoint_time) is Some,
    ensures
        exists|k: int|
            0 <= k < list.len() && (#[trigger] list[k]).0 == index && same_place(list[k].1, cp),
    decreases list.len(),
{
    if !(list[0].0 == index && same_place(list[0].1, cp)) {
        an_anchor_is_listed(list.drop_first(), index, cp);
        let k = choose|k: int|
            0 <= k < list.drop_first().len() && (#[trigger] list.drop_first()[k]).0 == index
                && same_place(list.drop_first()[k].1, cp);
        assert(list[k + 1] == list.drop_first()[k]);
    }
}

/// An anchor inserted at its rank, before every one held for its rotation, is the one served.
proof fn an_inserted_anchor_leads(
    list: Seq<(u64, CheckpointView)>,
    index: u64,
    cp: CheckpointView,
    at: int,
)
    requires
        0 <= at <= list.len(),
        forall|i: int| 0 <= i < at ==> comes_before(#[trigger] anchor_checkpoints(list)[i], cp),
        anchor_for(list, index) matches Some(held) ==> comes_before(cp, held),
    ensures
        anchor_for(list.insert(at, (index, cp)), index) == Some(cp),
    decreases at,
{
    let more = list.insert(at, (index, cp));
    if at == 0 {
        assert(more[0] == (index, cp));
    } else {
        assert(more[0] == list[0]);
        assert(comes_before(anchor_checkpoints(list)[0], cp));
        if list[0].0 == index {
            order_is_total(list[0].1, cp);
        } else {
            let rest = list.drop_first();
            assert forall|i: int| 0 <= i < at - 1 implies comes_before(
                #[trigger] anchor_checkpoints(rest)[i],
                cp,
            ) by {
                assert(anchor_checkpoints(rest)[i] == anchor_checkpoints(list)[i + 1]);
            }
            an_inserted_anchor_leads(rest, index, cp, at - 1);
            assert(more.drop_first() =~= rest.insert(at - 1, (index, cp)));
        }
    }
}

/// An inserted anchor leaves the one served for another rotation as it was.
proof fn another_anchor_is_kept(
    list: Seq<(u64, CheckpointView)>,
    at: int,
    index: u64,
    cp: CheckpointView,
    other: u64,
)
    requires
        0 <= at <= list.len(),
        other != index,
    ensures
        anchor_for(list.insert(at, (index, cp)), other) == anchor_for(list, other),
    decreases at,
{
    let more = list.insert(at, (index, cp));
    if at == 0 {
        assert(more[0] == (index, cp));
        assert(more.drop_first() =~= list);
    } else {
        assert(more[0] == list[0]);
        if list[0].0 != other {
            another_anchor_is_kept(list.drop_first(), at - 1, index, cp, other);
            assert(more.drop_first() =~= list.drop_first().insert(at - 1, (index, cp)));
        }
    }
}

/// An anchor inserted where none is held for its rotation at its place is found there.
proof fn an_inserted_anchor_is_found(
    list: Seq<(u64, CheckpointView)>,
    index: u64,
    cp: CheckpointView,
    at: int,
)
    requires
        0 <= at <= list.len(),
        anchor_at(list, index, cp.tree_size, cp.checkpoint_time) is None,
    ensures
        anchor_at(list.insert(at, (index, cp)), index, cp.tree_size, cp.checkpoint_time) == Some(
            cp,
        ),
    decreases at,
{
    let more = list.insert(at, (index, cp));
    if at == 0 {
        assert(more[0] == (index, cp));
    } else {
        assert(more[0] == list[0]);
        assert(more.drop_first() =~= list.drop_first().insert(at - 1, (index, cp)));
        an_inserted_anchor_is_found(list.drop_first(), index, cp, at - 1);
    }
}

/// Where an anchor is taken and another of its place is accepted after it, the two are one.
proof fn a_place_is_anchored_once(
    store: StoreView,
    index: u64,
    a: CheckpointView,
    b: CheckpointView,
)
    requires
        store.valid(),
        same_place(a, b),
        anchor_for(store.anchors, index) matches Some(held) ==> comes_before(a, held),
        store.anchoring(index, a) is Ok,
        store.anchoring(index, a)->Ok_0.0.anchoring(index, b) is Ok,
    ensures
        a == b,
{
    if anchor_at(store.anchors, index, a.tree_size, a.checkpoint_time) is None {
        rank_parts_the_list(anchor_checkpoints(store.anchors), a);
        let r = rank(anchor_checkpoints(store.anchors), a) as int;
        an_inserted_anchor_is_found(store.anchors, index, a, r);
    }
}

/// What is authenticated stays so when a checkpoint is recorded, and the recorded one becomes so.
pub proof fn recording_forgets_nothing(store: StoreView, cp: CheckpointView)
    requires
        in_series_order(store.checkpoints),
    ensures
        store.recording(cp) matches Ok((after, _)) ==> {
            &&& forall|x: CheckpointView| #[trigger]
                store.authenticated().contains(x) ==> after.authenticated().contains(x)
            &&& after.authenticated().contains(cp)
            &&& in_series_order(after.checkpoints)
        },
{
    if let Ok((after, done)) = store.recording(cp) {
        let list = store.checkpoints;
        member_at_finds(list, cp.tree_size, cp.checkpoint_time);
        an_offer_keeps_the_order(list, cp);
        if done == InsertOutcome::Inserted {
            series_order_is_weak_order(list);
            rank_parts_the_list(list, cp);
            inserted_contains(list, rank(list, cp) as int, cp);
        }
        authenticated_contains(store);
        authenticated_contains(after);
    }
}

/// What is authenticated is what the series, the anchors and the superseded ones contain.
proof fn authenticated_contains(store: StoreView)
    ensures
        forall|x: CheckpointView| #[trigger]
            store.authenticated().contains(x) <==> store.checkpoints.contains(x)
                || anchor_checkpoints(store.anchors).contains(x) || store.superseded.contains(x),
{
    let anchors = anchor_checkpoints(store.anchors);
    joined_contains(store.checkpoints, anchors);
    joined_contains(store.checkpoints + anchors, store.superseded);
}

/// What is authenticated stays so when an anchor is accepted, and the root of the accepted one is
/// held for its size whether it is served or superseded.
pub proof fn anchoring_forgets_nothing(store: StoreView, index: u64, cp: CheckpointView)
    requires
        in_weak_order(anchor_checkpoints(store.anchors)),
        in_weak_order(store.superseded),
    ensures
        store.anchoring(index, cp) matches Ok((after, _)) ==> {
            &&& forall|x: CheckpointView| #[trigger]
                store.authenticated().contains(x) ==> after.authenticated().contains(x)
            &&& holds_root(after.authenticated(), cp)
            &&& in_weak_order(anchor_checkpoints(after.anchors))
            &&& in_weak_order(after.superseded)
        },
{
    if let Ok((after, done)) = store.anchoring(index, cp) {
        let list = anchor_checkpoints(store.anchors);
        an_anchor_keeps_the_order(store.anchors, index, cp);
        evidence_keeps_the_order(store.superseded, cp);
        rank_parts_the_list(list, cp);
        rank_parts_the_list(store.superseded, cp);
        inserted_contains(list, rank(list, cp) as int, cp);
        inserted_contains(store.superseded, rank(store.superseded, cp) as int, cp);
        if done == InsertOutcome::Inserted {
            assert(anchor_checkpoints(after.anchors) =~= list.insert(rank(list, cp) as int, cp));
        }
        authenticated_contains(store);
        authenticated_contains(after);
        let series = after.checkpoints;
        let anchors = anchor_checkpoints(after.anchors);
        let shown: CheckpointView = if holds_root(series, cp) {
            let i = choose|i: int|
                0 <= i < series.len() && (#[trigger] series[i]).tree_size == cp.tree_size
                    && series[i].root_hash == cp.root_hash;
            series[i]
        } else if holds_root(anchors, cp) {
            let i = choose|i: int|
                0 <= i < anchors.len() && (#[trigger] anchors[i]).tree_size == cp.tree_size
                    && anchors[i].root_hash == cp.root_hash;
            anchors[i]
        } else if holds_root(store.superseded, cp) {
            let kept = store.superseded;
            let i = choose|i: int|
                0 <= i < kept.len() && (#[trigger] kept[i]).tree_size == cp.tree_size
                    && kept[i].root_hash == cp.root_hash;
            kept[i]
        } else {
            cp
        };
        let all = after.authenticated();
        assert(all.contains(shown));
        let k = choose|k: int| 0 <= k < all.len() && all[k] == shown;
        assert(all[k].tree_size == cp.tree_size && all[k].root_hash == cp.root_hash);
    }
}

/// Which anchor is served does not depend on the order two were offered in.
pub proof fn the_served_anchor_does_not_depend_on_order(
    store: StoreView,
    index: u64,
    a: CheckpointView,
    b: CheckpointView,
)
    requires
        store.valid(),
        store.anchoring(index, a) is Ok,
        store.anchoring(index, b) is Ok,
        store.anchoring(index, a)->Ok_0.0.anchoring(index, b) is Ok,
        store.anchoring(index, b)->Ok_0.0.anchoring(index, a) is Ok,
    ensures
        ({
            let ab = store.anchoring(index, a)->Ok_0.0.anchoring(index, b)->Ok_0.0;
            let ba = store.anchoring(index, b)->Ok_0.0.anchoring(index, a)->Ok_0.0;
            let one = anchor_for(ab.anchors, index)->0;
            let two = anchor_for(ba.anchors, index)->0;
            anchor_for(ab.anchors, index) is Some && anchor_for(ba.anchors, index) is Some && one
                == two
        }),
{
    let sa = store.anchoring(index, a)->Ok_0.0;
    let sb = store.anchoring(index, b)->Ok_0.0;
    the_earliest_anchor_is_served(store, index, a);
    the_earliest_anchor_is_served(store, index, b);
    an_anchor_keeps_the_order(store.anchors, index, a);
    an_anchor_keeps_the_order(store.anchors, index, b);
    evidence_keeps_the_order(store.superseded, a);
    evidence_keeps_the_order(store.superseded, b);
    the_earliest_anchor_is_served(sa, index, b);
    the_earliest_anchor_is_served(sb, index, a);
    let held = anchor_for(store.anchors, index);
    order_is_total(a, b);
    if let Some(h) = held {
        order_is_total(a, h);
        order_is_total(b, h);
        if comes_before(a, h) && (comes_before(h, b) || same_place(h, b)) {
            order_is_transitive(a, h, b);
        }
        if comes_before(b, h) && (comes_before(h, a) || same_place(h, a)) {
            order_is_transitive(b, h, a);
        }
    }
    if same_place(a, b) && (held matches Some(h) ==> comes_before(a, h)) {
        a_place_is_anchored_once(store, index, a, b);
    }
}

// ---- what each operation decides ----

/// When a promotion succeeds, in full. An entry that is staged takes the next index exactly where
/// its id is not canonical, the index can be addressed and no sibling node is lost; an index that
/// is taken accepts exactly the entry it holds, byte for byte. Every other promotion is refused
/// for the first of these that fails.
pub proof fn a_promotion_takes_the_next_index(store: StoreView, index: u64, id: Seq<char>)
    requires
        store.valid(),
    ensures
        ({
            let next = store.entries.len();
            let promoted = store.promoting(index, id);
            let elsewhere = exists|i: int|
                0 <= i < store.entries.len() && (#[trigger] store.entries[i]).entry_id == id;
            if index > MAX_LEAVES {
                promoted == Err::<(StoreView, InsertOutcome), Fault>(
                    Fault::IndexOverflow { what: "entry_index"@ },
                )
            } else if !store.staged.contains_key(id) {
                promoted == Err::<(StoreView, InsertOutcome), Fault>(
                    Fault::NotStaged { entry_id: id },
                )
            } else if index < next {
                let held = store.entries[index as int];
                if held.entry_id == id && held.envelope == store.staged[id] {
                    promoted == Ok::<(StoreView, InsertOutcome), Fault>(
                        (store, InsertOutcome::AlreadyPresent),
                    )
                } else {
                    promoted == Err::<(StoreView, InsertOutcome), Fault>(
                        Fault::IndexConflict {
                            index,
                            existing_entry_id: held.entry_id,
                            new_entry_id: id,
                        },
                    )
                }
            } else if elsewhere {
                promoted matches Err(Fault::EntryIdAtDifferentIndex {
                    entry_id,
                    existing_index,
                    requested_index,
                }) && entry_id == id && requested_index == index && existing_index < next
                    && store.entries[existing_index as int].entry_id == id
            } else if index > next {
                promoted == Err::<(StoreView, InsertOutcome), Fault>(
                    Fault::OutOfOrderIndex { expected: next as u64, got: index },
                )
            } else {
                match promoted {
                    Ok((after, done)) => {
                        &&& done == InsertOutcome::Inserted
                        &&& after.entries == store.entries.push(
                            EntryView { entry_id: id, envelope: store.staged[id] },
                        )
                        &&& after.tree.leaves == leaves_of(after.entries)
                        &&& forall|node: (nat, nat)|
                            after.tree.held.contains(node) <==> #[trigger] store.tree.held.contains(
                                node,
                            ) || node.0 >= 1 && next < (node.1 + 1) * width(node.0) <= next + 1
                        &&& after.valid()
                    },
                    Err(fault) => (index == MAX_LEAVES && fault == (Fault::IndexOverflow {
                        what: "next_index"@,
                    })) || fault is TreeMaterialMissing,
                }
            }
        }),
{
    if store.staged.contains_key(id) && index <= MAX_LEAVES && index >= store.entries.len() {
        if let Some(at) = store.index_of(id) {
            assert(store.entries[at].entry_id == id);
        }
        if let Ok((after, _)) = store.promoting(index, id) {
            assert(after.tree.leaves =~= leaves_of(after.entries));
            assert forall|i: int, j: int| 0 <= i < j < after.entries.len() implies (
            #[trigger] after.entries[i]).entry_id != (#[trigger] after.entries[j]).entry_id by {
                assert(after.entries[i] == store.entries[i]);
                if j < store.entries.len() {
                    assert(after.entries[j] == store.entries[j]);
                }
            }
            assert forall|node: (nat, nat)| after.tree.held.contains(node) implies complete_nodes(
                after.entries.len(),
            ).contains(node) by {
                if store.tree.held.contains(node) {
                    assert(complete_nodes(store.entries.len()).contains(node));
                }
            }
            assert(after.tree.held.subset_of(complete_nodes(after.entries.len())));
        }
    }
}

/// When bytes are staged: an id that is free takes them and nothing else changes, an id that has
/// the same bytes keeps them, and an id that has other bytes refuses them and names itself.
pub proof fn an_id_is_staged_once(store: StoreView, id: Seq<char>, bytes: Seq<u8>)
    ensures
        match store.staging(id, bytes) {
            Ok((after, InsertOutcome::Inserted)) => !store.staged.contains_key(id) && after == (
            StoreView { staged: store.staged.insert(id, bytes), ..store }),
            Ok((after, InsertOutcome::AlreadyPresent)) => store.staged.contains_key(id)
                && store.staged[id] == bytes && after == store,
            Err(fault) => store.staged.contains_key(id) && store.staged[id] != bytes && fault == (
            Fault::IndexConflict { index: 0, existing_entry_id: id, new_entry_id: id }),
        },
{
}

/// What is held of a range: every held entry whose index lies in it, in order, and nothing else.
pub proof fn a_window_holds_what_is_held_of_it(store: StoreView, from: int, to: int)
    requires
        0 <= from,
    ensures
        ({
            let end = if to <= store.entries.len() {
                to
            } else {
                store.entries.len() as int
            };
            let window = store.window(from, to);
            &&& window.len() == if from < end {
                end - from
            } else {
                0
            }
            &&& forall|i: int| 0 <= i < window.len() ==> #[trigger] window[i] == store.entries[from
                + i]
        }),
{
}

/// A range is refused exactly where one of its bounds cannot be addressed, the first of them by
/// name.
pub proof fn a_range_is_refused_for_its_first_bound(from_index: u64, to_index: u64)
    ensures
        overflow_of(from_index, to_index) is None <==> from_index <= MAX_LEAVES && to_index
            <= MAX_LEAVES,
        from_index > MAX_LEAVES ==> overflow_of(from_index, to_index) == Some(
            Fault::IndexOverflow { what: "from_index"@ },
        ),
        from_index <= MAX_LEAVES < to_index ==> overflow_of(from_index, to_index) == Some(
            Fault::IndexOverflow { what: "to_index"@ },
        ),
{
}

/// When a checkpoint is recorded: exactly where its size can be addressed and its place, that is
/// its size and time, is free or its own. It is then in the series, in order, and the outcome says
/// whether it is new.
pub proof fn a_place_in_the_series_is_taken_once(store: StoreView, cp: CheckpointView)
    requires
        store.valid(),
    ensures
        ({
            let taken = exists|i: int|
                0 <= i < store.checkpoints.len() && (#[trigger] store.checkpoints[i]).tree_size
                    == cp.tree_size && store.checkpoints[i].checkpoint_time == cp.checkpoint_time;
            let recorded = store.recording(cp);
            if cp.tree_size > MAX_LEAVES {
                recorded == Err::<(StoreView, InsertOutcome), Fault>(
                    Fault::IndexOverflow { what: "tree_size"@ },
                )
            } else if store.checkpoints.contains(cp) {
                recorded == Ok::<(StoreView, InsertOutcome), Fault>(
                    (store, InsertOutcome::AlreadyPresent),
                )
            } else if taken {
                recorded == Err::<(StoreView, InsertOutcome), Fault>(
                    Fault::SeriesMemberConflict {
                        tree_size: cp.tree_size,
                        checkpoint_time: cp.checkpoint_time,
                    },
                )
            } else {
                &&& recorded matches Ok((after, done))
                &&& done == InsertOutcome::Inserted
                &&& after.checkpoints.len() == store.checkpoints.len() + 1
                &&& after.checkpoints.contains(cp)
                &&& in_series_order(after.checkpoints)
                &&& after == (StoreView { checkpoints: after.checkpoints, ..store })
            }
        }),
{
    let list = store.checkpoints;
    member_at_finds(list, cp.tree_size, cp.checkpoint_time);
    series_order_is_weak_order(list);
    rank_parts_the_list(list, cp);
    if list.contains(cp) {
        a_member_is_found(list, cp);
    }
    if let Some(found) = member_at(list, cp.tree_size, cp.checkpoint_time) {
        let k = choose|k: int| 0 <= k < list.len() && list[k] == found;
        assert(list[k].tree_size == cp.tree_size);
    } else {
        inserting_at_rank_keeps_series_order(list, cp);
        inserted_contains(list, rank(list, cp) as int, cp);
    }
}

/// When an anchor is accepted: exactly where its index and size can be addressed and its place
/// among the anchors of its rotation is free or its own. It joins the anchors exactly where it
/// comes before every one held for the rotation, and joins the superseded exactly where it does
/// not and no checkpoint held has its size and root; nothing else changes.
pub proof fn an_anchor_is_kept_where_it_is_needed(store: StoreView, index: u64, cp: CheckpointView)
    requires
        store.valid(),
        index <= MAX_LEAVES,
        cp.tree_size <= MAX_LEAVES,
    ensures
        ({
            let conflict = exists|k: int|
                0 <= k < store.anchors.len() && (#[trigger] store.anchors[k]).0 == index
                    && store.anchors[k].1.tree_size == cp.tree_size
                    && store.anchors[k].1.checkpoint_time == cp.checkpoint_time
                    && store.anchors[k].1 != cp;
            let leads = forall|k: int|
                0 <= k < store.anchors.len() && (#[trigger] store.anchors[k]).0 == index
                    ==> comes_before(cp, store.anchors[k].1);
            match store.anchoring(index, cp) {
                Ok((after, done)) => {
                    &&& done == InsertOutcome::Inserted <==> leads
                    &&& leads ==> after.anchors.len() == store.anchors.len() + 1
                        && after.anchors.contains((index, cp)) && after.superseded
                        == store.superseded
                    &&& !leads ==> after.anchors == store.anchors
                    &&& !leads && (exists|k: int|
                        0 <= k < store.authenticated().len() && (
                        #[trigger] store.authenticated()[k]).tree_size == cp.tree_size
                            && store.authenticated()[k].root_hash == cp.root_hash)
                        ==> after.superseded == store.superseded
                    &&& !leads && (forall|k: int|
                        0 <= k < store.authenticated().len() && (
                        #[trigger] store.authenticated()[k]).tree_size == cp.tree_size
                            ==> store.authenticated()[k].root_hash != cp.root_hash)
                        ==> after.superseded.len() == store.superseded.len() + 1
                        && after.superseded.contains(cp)
                    &&& after == (StoreView {
                        anchors: after.anchors,
                        superseded: after.superseded,
                        ..store
                    })
                },
                Err(fault) => conflict && fault == (Fault::SeriesMemberConflict {
                    tree_size: cp.tree_size,
                    checkpoint_time: cp.checkpoint_time,
                }),
            }
        }),
        (forall|k: int|
            0 <= k < store.anchors.len() && (#[trigger] store.anchors[k]).0 == index
                && store.anchors[k].1.tree_size == cp.tree_size
                && store.anchors[k].1.checkpoint_time == cp.checkpoint_time
                ==> store.anchors[k].1 == cp) ==> store.anchoring(index, cp) is Ok,
{
    let list = store.anchors;
    let bare = anchor_checkpoints(list);
    a_found_anchor_is_listed(list, index, cp.tree_size, cp.checkpoint_time);
    the_served_anchor_is_the_earliest_held(list, index);
    rank_parts_the_list(bare, cp);
    rank_parts_the_list(store.superseded, cp);
    inserted_contains(store.superseded, rank(store.superseded, cp) as int, cp);
    let r = rank(bare, cp) as int;
    if let Some(held) = anchor_for(list, index) {
        let k = choose|k: int| 0 <= k < list.len() && list[k] == (index, held);
        assert(list[k].0 == index);
        order_is_total(cp, held);
        assert forall|j: int|
            0 <= j < list.len() && (#[trigger] list[j]).0 == index && comes_before(
                cp,
                held,
            ) implies comes_before(cp, list[j].1) by {
            order_is_total(held, list[j].1);
            order_is_transitive(cp, held, list[j].1);
        }
    }
    if let Some(existing) = anchor_at(list, index, cp.tree_size, cp.checkpoint_time) {
        let k = choose|k: int|
            0 <= k < list.len() && #[trigger] list[k] == (index, existing) && existing.tree_size
                == cp.tree_size && existing.checkpoint_time == cp.checkpoint_time;
        order_is_total(cp, existing);
        assert(list[k].0 == index && !comes_before(cp, list[k].1));
    }
    if let Ok((after, done)) = store.anchoring(index, cp) {
        if done == InsertOutcome::Inserted {
            assert(after.anchors[r] == (index, cp));
            let with = anchor_checkpoints(after.anchors);
            assert(with[r] == cp);
            assert(holds_root(with, cp));
        } else {
            let all = store.authenticated();
            let n = store.checkpoints.len() as int;
            let m = bare.len() as int;
            assert forall|i: int| 0 <= i < n implies #[trigger] store.checkpoints[i] == all[i] by {}
            assert forall|i: int| 0 <= i < m implies #[trigger] bare[i] == all[n + i] by {}
            assert forall|i: int| 0 <= i < store.superseded.len() implies #[trigger]
                store.superseded[i] == all[n + m + i] by {}
            if exists|k: int|
                0 <= k < all.len() && (#[trigger] all[k]).tree_size == cp.tree_size
                    && all[k].root_hash == cp.root_hash {
                let k = choose|k: int|
                    0 <= k < all.len() && (#[trigger] all[k]).tree_size == cp.tree_size
                        && all[k].root_hash == cp.root_hash;
                if k < n {
                    assert(store.checkpoints[k] == all[k]);
                } else if k < n + m {
                    assert(bare[k - n] == all[k]);
                } else {
                    assert(store.superseded[k - n - m] == all[k]);
                }
            }
        }
    }
}

/// In a store that lost no node, the root over every prefix that is held is opened, and it is the
/// root over the leaves of the entries; beyond what is held none is.
pub proof fn every_held_root_is_opened(store: StoreView, size: nat)
    requires
        store.valid(),
        store.tree.held == complete_nodes(store.entries.len()),
    ensures
        size <= store.entries.len() ==> store.root_at(size) == Ok::<Seq<u8>, Fault>(
            root_of(Seq::new(size, |i: int| leaf_of(store.entries[i].envelope))),
        ),
        size > store.entries.len() ==> store.root_at(size) == Err::<Seq<u8>, Fault>(Fault::Atl),
{
    let leaves = Seq::new(size, |i: int| leaf_of(store.entries[i].envelope));
    if size <= store.entries.len() {
        whole_material_has_no_gap(store.tree, 0, size);
        assert(store.tree.leaves.subrange(0, size as int) =~= leaves);
        if size == 0 {
            assert(leaves =~= Seq::<Seq<u8>>::empty());
        }
    }
}

/// In a store that lost no node, the consistency path between two sizes in order is opened exactly
/// where the larger is held; the sizes the wrong way round, and one that is not held, are refused.
pub proof fn every_held_path_is_opened(store: StoreView, from: u64, to: u64)
    requires
        store.valid(),
        store.tree.held == complete_nodes(store.entries.len()),
    ensures
        to > MAX_LEAVES ==> store.link(from, to) == Err::<Seq<Seq<u8>>, Fault>(
            Fault::IndexOverflow { what: "to_index"@ },
        ),
        store.entries.len() < to <= MAX_LEAVES ==> store.link(from, to) == Err::<
            Seq<Seq<u8>>,
            Fault,
        >(Fault::IncompleteEntries { have: store.entries.len() as u64, need: to }),
        to <= store.entries.len() && from > to ==> store.link(from, to) == Err::<
            Seq<Seq<u8>>,
            Fault,
        >(Fault::Atl),
        to <= store.entries.len() && from <= to ==> store.link(from, to) == Ok::<
            Seq<Seq<u8>>,
            Fault,
        >(
            consistency_path(
                Seq::new(to as nat, |i: int| leaf_of(store.entries[i].envelope)),
                from as nat,
            ),
        ),
{
    if to <= store.entries.len() && from <= to {
        whole_material_opens_consistency(store.tree, from as nat, 0, to as nat, true);
        assert(store.tree.leaves.take(to as int) =~= Seq::new(
            to as nat,
            |i: int| leaf_of(store.entries[i].envelope),
        ));
    }
}

} // verus!
