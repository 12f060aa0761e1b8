//! The checkpoint series: which members are usable, how far the series is free of gaps, and
//! where the log contradicted itself.
//!
//! A member is usable once its root is that of the entries held and it is consistent with the
//! last usable member before it. The series starts at the cadence epoch and is judged interval
//! by interval under the cadence in force when the interval began. Two roots for one size end
//! it: nothing at or beyond the lowest such size is ever vouched for.

use vstd::prelude::*;

use crate::checkpoint::{consistency_judged, parse_checkpoint_time};
use crate::config::{Config, ConfigView};
use crate::error::{gives, refuses, Fault, MirrorError, MirrorResult};
use crate::geometry::{hashes_view, root_of};
use crate::manifest::{
    a_refusal_of_the_chain_stands, a_version_is_in_force_right_after_its_manifest, chain,
    governance_after, resolve, versions_form_one_chain, GovernanceState, GovernanceView,
};
use crate::metadata::leaf_of;
use crate::primitives::hash_of_text;
use crate::proofs::{verify_consistency, ConsistencyProof};
use crate::series::{
    anchor_checkpoints, bare_anchors, checkpoints_view, comes_before, in_series_order,
    in_weak_order, joined_contains, series_order_is_weak_order, Checkpoint, CheckpointView,
};
use crate::store::{envelopes_of, every_held_root_is_opened, leaves_of, Store, StoreView};
use crate::text::{bytes_view, same_hash, same_text};
use crate::timestamp::checkpoint_time_nanos;
use crate::tree::{complete_nodes, whole_material_has_no_gap, MAX_LEAVES};

verus! {

/// How far a checkpoint is established.
#[derive(Debug, Clone, Copy, PartialEq, Eq, Structural)]
pub enum CheckpointState {
    /// Its signature verifies under the governing keys. It is kept and reported, and counts for
    /// nothing in the series.
    Authenticated,
    /// Its root is that of the entries held, and it is consistent with the last usable member
    /// before it. Only such a member may ground a bound, an enumeration or a completeness claim.
    SeriesUsable,
}

/// A checkpoint with its state.
#[derive(Debug)]
pub struct ReportedCheckpoint {
    /// The checkpoint.
    pub checkpoint: Checkpoint,
    /// Its state.
    pub state: CheckpointState,
}

/// Why the gap-free frontier stops where it does.
#[derive(Debug, Clone, Copy, PartialEq, Eq, Structural)]
pub enum FrontierStop {
    /// The earliest usable member is not within one cadence of the epoch.
    NoValidStart,
    /// The time decreased between two members.
    DecreasingTime {
        /// The size of the member after which it did.
        after_tree_size: u64,
    },
    /// More than the cadence passed between two members.
    CadenceExceeded {
        /// The size of the member after which it did.
        after_tree_size: u64,
    },
    /// No governance could be resolved for a member.
    GovernanceUnresolvable {
        /// The size it was resolved for.
        at_tree_size: u64,
    },
    /// Two authenticated checkpoints of one size have different roots.
    Equivocation {
        /// The lowest such size.
        at_tree_size: u64,
    },
}

/// The series as it stands.
#[derive(Debug)]
pub struct SeriesView {
    /// Every authenticated checkpoint, in order, with its state.
    pub members: Vec<ReportedCheckpoint>,
    /// The size up to which the usable members are free of gaps, if any are.
    pub gap_free_frontier: Option<u64>,
    /// Why the frontier stops short of the newest usable member, if it does.
    pub frontier_stop: Option<FrontierStop>,
    /// The sizes at which authenticated checkpoints have different roots, ascending.
    pub root_divergences: Vec<u64>,
    /// The lowest of them.
    pub equivocation_floor: Option<u64>,
}

/// A member of the series with its state.
pub type Member = (CheckpointView, CheckpointState);

/// A list of reported checkpoints by their views.
pub open spec fn members_view(members: Seq<ReportedCheckpoint>) -> Seq<Member> {
    Seq::new(members.len(), |i: int| (members[i].checkpoint@, members[i].state))
}

// ---- usability ----

impl StoreView {
    /// Whether a checkpoint's root is that of the entries it commits.
    pub open spec fn root_agrees(self, cp: CheckpointView) -> Result<bool, Fault> {
        match hash_of_text(cp.root_hash) {
            None => Err(Fault::Ahl),
            Some(claimed) => match self.root_at(cp.tree_size as nat) {
                Err(fault) => Err(fault),
                Ok(root) => Ok(root == claimed),
            },
        }
    }

    /// Whether a checkpoint is usable after the last usable one before it: the entries reach
    /// it, its root is theirs, and it is consistent with that one.
    pub open spec fn usable(self, cp: CheckpointView, pred: Option<CheckpointView>) -> Result<
        bool,
        Fault,
    > {
        if cp.tree_size > MAX_LEAVES {
            Err(Fault::IndexOverflow { what: "to_index"@ })
        } else if cp.tree_size > self.entries.len() {
            Ok(false)
        } else {
            match self.root_agrees(cp) {
                Err(fault) => Err(fault),
                Ok(false) => Ok(false),
                Ok(true) => match pred {
                    None => Ok(true),
                    Some(before) => consistency_judged(
                        before,
                        cp,
                        self.link(before.tree_size, cp.tree_size),
                    ),
                },
            }
        }
    }

    /// Whether a checkpoint is reported usable. What cannot be judged is not usable; but tree
    /// material that is lost or wrong is a fault of this store, not of the checkpoint.
    pub open spec fn reported_usable(self, cp: CheckpointView, pred: Option<CheckpointView>) -> Result<
        bool,
        Fault,
    > {
        match self.usable(cp, pred) {
            Ok(usable) => Ok(usable),
            Err(fault) => if is_material_fault(fault) {
                Err(fault)
            } else {
                Ok(false)
            },
        }
    }

    /// The members of a series with their states.
    pub open spec fn reporting(self, list: Seq<CheckpointView>) -> Result<Seq<Member>, Fault>
        decreases list.len(),
    {
        if list.len() == 0 {
            Ok(Seq::empty())
        } else {
            match self.reporting(list.drop_last()) {
                Err(fault) => Err(fault),
                Ok(before) => match self.reported_usable(list.last(), last_usable(before)) {
                    Err(fault) => Err(fault),
                    Ok(usable) => Ok(
                        before.push(
                            (
                                list.last(),
                                if usable {
                                    CheckpointState::SeriesUsable
                                } else {
                                    CheckpointState::Authenticated
                                },
                            ),
                        ),
                    ),
                },
            }
        }
    }

    /// Whether a checkpoint is one of this log: the entries reach it, and its root is the root
    /// over the entries it commits.
    pub open spec fn genuine(self, cp: CheckpointView) -> bool {
        cp.tree_size <= self.entries.len() && hash_of_text(cp.root_hash) == Some(
            root_of(leaves_of(self.entries).take(cp.tree_size as int)),
        )
    }
}

/// Whether a fault is one of stored tree material.
pub open spec fn is_material_fault(fault: Fault) -> bool {
    fault is TreeMaterialMissing || fault is TreeMaterialCorrupt
}

/// The last usable member.
pub open spec fn last_usable(members: Seq<Member>) -> Option<CheckpointView>
    decreases members.len(),
{
    if members.len() == 0 {
        None
    } else if members.last().1 == CheckpointState::SeriesUsable {
        Some(members.last().0)
    } else {
        last_usable(members.drop_last())
    }
}

/// The usable members, in order.
pub open spec fn usable_members(members: Seq<Member>) -> Seq<CheckpointView>
    decreases members.len(),
{
    if members.len() == 0 {
        Seq::empty()
    } else if members.last().1 == CheckpointState::SeriesUsable {
        usable_members(members.drop_last()).push(members.last().0)
    } else {
        usable_members(members.drop_last())
    }
}

/// Whether the entries reach a tree size.
pub fn holds_prefix(store: &Store, tree_size: u64) -> (held: MirrorResult<bool>)
    requires
        store.wf(),
    ensures
        match held {
            Ok(reached) => tree_size <= MAX_LEAVES && reached == (tree_size
                <= store@.entries.len()),
            Err(error) => tree_size > MAX_LEAVES && error@ == (Fault::IndexOverflow {
                what: "to_index"@,
            }),
        },
{
    let have: u64 = store.count_entries(0, tree_size)?;
    proof {
        store.is_valid();
    }
    Ok(have == tree_size)
}

/// Whether a checkpoint's root is that of the entries it commits, opened from stored nodes.
pub fn root_matches_stored(store: &Store, cp: &Checkpoint) -> (matching: MirrorResult<bool>)
    requires
        store.wf(),
    ensures
        match matching {
            Ok(agrees) => gives(store@.root_agrees(cp@), agrees),
            Err(error) => refuses(store@.root_agrees(cp@), error),
        },
{
    let claimed: [u8; 32] = match ahl_core::parse_hash_hex(cp.root_hash.as_str()) {
        Ok(claimed) => claimed,
        Err(error) => {
            return Err(MirrorError::Ahl(error));
        },
    };
    let root: [u8; 32] = store.log_root(cp.tree_size)?;
    Ok(same_hash(&root, &claimed))
}

/// Whether two checkpoints are consistent, on a proof opened from stored nodes. Where the older
/// one is of this log and no node is lost, they are exactly where the newer one is.
pub fn series_consistency_stored(store: &Store, from_cp: &Checkpoint, to_cp: &Checkpoint) -> (verdict:
    MirrorResult<bool>)
    requires
        store.wf(),
    ensures
        match verdict {
            Ok(links) => gives(
                consistency_judged(
                    from_cp@,
                    to_cp@,
                    store@.link(from_cp.tree_size, to_cp.tree_size),
                ),
                links,
            ),
            Err(error) => refuses(
                consistency_judged(
                    from_cp@,
                    to_cp@,
                    store@.link(from_cp.tree_size, to_cp.tree_size),
                ),
                error,
            ),
        },
        store@.tree.held == complete_nodes(store@.entries.len()) && store@.genuine(from_cp@)
            && from_cp.tree_size <= to_cp.tree_size <= store@.entries.len() && (from_cp.tree_size
            > 0 || to_cp.tree_size == 0) && hash_of_text(to_cp@.root_hash) is Some ==> verdict is Ok
            && verdict->Ok_0 == store@.genuine(to_cp@),
        store@.entries.len() >= to_cp.tree_size > 0 && from_cp.tree_size == 0 && hash_of_text(
            from_cp@.root_hash,
        ) is Some && hash_of_text(to_cp@.root_hash) is Some ==> verdict is Ok && verdict->Ok_0,
{
    let from_root: [u8; 32] = match ahl_core::parse_hash_hex(from_cp.root_hash.as_str()) {
        Ok(root) => root,
        Err(error) => {
            return Err(MirrorError::Ahl(error));
        },
    };
    let to_root: [u8; 32] = match ahl_core::parse_hash_hex(to_cp.root_hash.as_str()) {
        Ok(root) => root,
        Err(error) => {
            return Err(MirrorError::Ahl(error));
        },
    };
    let opened: ConsistencyProof = match store.consistency_proof(
        from_cp.tree_size,
        to_cp.tree_size,
    ) {
        Ok(opened) => opened,
        Err(error) => {
            proof {
                store.is_valid();
                a_genuine_pair_is_linked(store@, from_cp.tree_size, to_cp.tree_size);
            }
            return Err(error);
        },
    };
    proof {
        store.is_valid();
        let leaves = leaves_of(store@.entries).take(to_cp.tree_size as int);
        if from_cp.tree_size <= to_cp.tree_size <= store@.entries.len() {
            assert(leaves.take(from_cp.tree_size as int) =~= leaves_of(store@.entries).take(
                from_cp.tree_size as int,
            ));
            if from_cp.tree_size == to_cp.tree_size {
                assert(leaves.take(from_cp.tree_size as int) =~= leaves);
            }
            if from_cp.tree_size == 0 || from_cp.tree_size == to_cp.tree_size {
                a_trivial_path_is_empty(store@, from_cp.tree_size, to_cp.tree_size);
            }
            assert(opened.path@.len() == hashes_view(opened.path@).len());
        }
    }
    match verify_consistency(
        from_cp.tree_size,
        to_cp.tree_size,
        &opened.path,
        &from_root,
        &to_root,
    ) {
        Ok(links) => Ok(links),
        Err(error) => Err(MirrorError::Atl(error)),
    }
}

/// Where no node is lost, the sizes of a log are linked; the empty log is linked to all.
proof fn a_genuine_pair_is_linked(store: StoreView, from: u64, to: u64)
    requires
        store.valid(),
    ensures
        from <= to <= store.entries.len() && store.tree.held == complete_nodes(store.entries.len())
            ==> store.link(from, to) is Ok,
        from == 0 && to <= store.entries.len() ==> store.link(from, to) is Ok,
{
    assert(store.tree.leaves.len() == store.entries.len());
    if from <= to <= store.entries.len() {
        if store.tree.held == complete_nodes(store.entries.len()) {
            crate::proofs::whole_material_opens_consistency(
                store.tree,
                from as nat,
                0,
                to as nat,
                true,
            );
        }
    }
}

/// The path from the empty log, and from a log to itself, is empty.
proof fn a_trivial_path_is_empty(store: StoreView, from: u64, to: u64)
    requires
        store.valid(),
        from <= to <= store.entries.len(),
        from == 0 || from == to,
    ensures
        store.link(from, to) matches Ok(path) ==> path.len() == 0,
{
    assert(store.tree.leaves.take(to as int).len() == to);
}

/// Whether a checkpoint is usable after the last usable one before it.
pub fn series_usable_stored(store: &Store, cp: &Checkpoint, pred: Option<&Checkpoint>) -> (verdict:
    MirrorResult<bool>)
    requires
        store.wf(),
    ensures
        match verdict {
            Ok(usable) => gives(store@.usable(cp@, pred_view(pred)), usable),
            Err(error) => refuses(store@.usable(cp@, pred_view(pred)), error),
        },
        store@.tree.held == complete_nodes(store@.entries.len()) && hash_of_text(
            cp@.root_hash,
        ) is Some && cp.tree_size <= MAX_LEAVES && (pred matches Some(before) ==> store@.genuine(
            before@,
        ) && before.tree_size <= cp.tree_size) ==> verdict is Ok && verdict->Ok_0
            == store@.genuine(cp@),
{
    proof {
        store.is_valid();
        assert(leaves_of(store@.entries).len() == store@.entries.len());
        if cp.tree_size <= store@.entries.len() {
            whole_roots_are_opened(store@, cp.tree_size as nat);
        }
    }
    if !holds_prefix(store, cp.tree_size)? {
        return Ok(false);
    }
    if !root_matches_stored(store, cp)? {
        return Ok(false);
    }
    match pred {
        None => Ok(true),
        Some(before) => series_consistency_stored(store, before, cp),
    }
}

/// Where no node is lost, the root over a prefix is opened.
proof fn whole_roots_are_opened(store: StoreView, size: nat)
    requires
        store.valid(),
        size <= store.entries.len(),
    ensures
        store.tree.held == complete_nodes(store.entries.len()) ==> store.root_at(size) == Ok::<
            Seq<u8>,
            Fault,
        >(root_of(leaves_of(store.entries).take(size as int))),
        store.root_at(size) matches Ok(root) ==> root == root_of(
            leaves_of(store.entries).take(size as int),
        ),
{
    assert(store.tree.leaves.len() == store.entries.len());
    let leaves = leaves_of(store.entries);
    if size > 0 {
        if store.tree.held == complete_nodes(store.entries.len()) {
            whole_material_has_no_gap(store.tree, 0, size);
        }
        assert(leaves.subrange(0, size as int) =~= leaves.take(size as int));
    } else {
        assert(leaves.take(0) =~= Seq::<Seq<u8>>::empty());
    }
}

/// An optional checkpoint by its view.
pub open spec fn pred_view(pred: Option<&Checkpoint>) -> Option<CheckpointView> {
    match pred {
        Some(cp) => Some(cp@),
        None => None,
    }
}

/// Settle what a judged member is reported as.
pub fn settle_usability(judged: MirrorResult<bool>) -> (settled: MirrorResult<bool>)
    ensures
        match settled {
            Ok(usable) => match judged {
                Ok(verdict) => usable == verdict,
                Err(error) => !is_material_fault(error@) && !usable,
            },
            Err(error) => judged is Err && judged->Err_0 == error && is_material_fault(error@),
        },
{
    match judged {
        Ok(usable) => Ok(usable),
        Err(MirrorError::TreeMaterialMissing { level, node_index }) => Err(
            MirrorError::TreeMaterialMissing { level, node_index },
        ),
        Err(MirrorError::TreeMaterialCorrupt { level, node_index }) => Err(
            MirrorError::TreeMaterialCorrupt { level, node_index },
        ),
        Err(_) => Ok(false),
    }
}

// ---- divergence ----

/// Whether two checkpoints of a size have different roots.
pub open spec fn diverges_at(list: Seq<CheckpointView>, tree_size: u64) -> bool {
    exists|i: int, j: int|
        0 <= i < list.len() && 0 <= j < list.len() && (#[trigger] list[i]).tree_size == tree_size
            && (#[trigger] list[j]).tree_size == tree_size && list[i].root_hash
            != list[j].root_hash
}

/// The lowest size at which two checkpoints have different roots.
pub open spec fn floor_of(list: Seq<CheckpointView>) -> Option<u64> {
    if exists|size: u64| is_floor(list, size) {
        Some(choose|size: u64| is_floor(list, size))
    } else {
        None
    }
}

/// Whether a size is the lowest at which two checkpoints have different roots.
pub open spec fn is_floor(list: Seq<CheckpointView>, tree_size: u64) -> bool {
    diverges_at(list, tree_size) && forall|lower: u64|
        lower < tree_size ==> !#[trigger] diverges_at(list, lower)
}

/// Whether a list names, ascending, exactly the sizes at which roots differ.
pub open spec fn names_divergences(sizes: Seq<u64>, list: Seq<CheckpointView>) -> bool {
    &&& forall|i: int, j: int|
        0 <= i < j < sizes.len() ==> #[trigger] sizes[i] < #[trigger] sizes[j]
    &&& forall|size: u64| sizes.contains(size) <==> #[trigger] diverges_at(list, size)
}

/// Whether sizes never decrease along a list.
pub open spec fn by_size(list: Seq<CheckpointView>) -> bool {
    forall|i: int, j: int|
        0 <= i < j < list.len() ==> (#[trigger] list[i]).tree_size <= (#[trigger] list[j]).tree_size
}

/// Find the sizes at which checkpoints of a list that is ordered by size have different roots.
fn find_root_divergences(list: &Vec<Checkpoint>) -> (sizes: Vec<u64>)
    requires
        by_size(checkpoints_view(list@)),
    ensures
        names_divergences(sizes@, checkpoints_view(list@)),
{
    let ghost listed = checkpoints_view(list@);
    let mut sizes: Vec<u64> = Vec::new();
    let mut i: usize = 0;
    while i < list.len()
        invariant
            i <= list@.len(),
            listed == checkpoints_view(list@),
            by_size(listed),
            names_divergences(sizes@, listed.take(i as int)),
        decreases list.len() - i,
    {
        let size: u64 = list[i].tree_size;
        let differs: bool = i > 0 && list[i - 1].tree_size == size && !same_text(
            list[i - 1].root_hash.as_str(),
            list[i].root_hash.as_str(),
        );
        let known: bool = sizes.len() > 0 && sizes[sizes.len() - 1] == size;
        let ghost before = sizes@;
        proof {
            one_more_divergence(listed, i as int);
            assert(listed[i as int] == list@[i as int]@);
            assert forall|s: u64| #[trigger] before.contains(s) implies s <= size by {
                assert(diverges_at(listed.take(i as int), s));
                divergence_is_seen(listed, i as int, s);
            }
            assert(known ==> before.contains(size)) by {
                if known {
                    assert(before[before.len() - 1] == size);
                }
            }
            assert(before.contains(size) ==> known) by {
                if before.contains(size) {
                    let k = choose|k: int| 0 <= k < before.len() && before[k] == size;
                    assert(before.contains(before[before.len() - 1]));
                    if k < before.len() - 1 {
                        assert(before[k] < before[before.len() - 1]);
                    }
                }
            }
        }
        if differs && !known {
            sizes.push(size);
            proof {
                assert forall|s: u64| sizes@.contains(s) <==> #[trigger] diverges_at(
                    listed.take(i + 1),
                    s,
                ) by {
                    assert(sizes@.contains(s) <==> before.contains(s) || s == size) by {
                        if before.contains(s) {
                            let k = choose|k: int| 0 <= k < before.len() && before[k] == s;
                            assert(sizes@[k] == s);
                        }
                        if s == size {
                            assert(sizes@[before.len() as int] == s);
                        }
                    }
                }
                assert forall|a: int, b: int| 0 <= a < b < sizes@.len() implies #[trigger] sizes@[a]
                    < #[trigger] sizes@[b] by {
                    if b == before.len() {
                        assert(before.contains(before[a]));
                    }
                }
            }
        }
        i += 1;
    }
    assert(listed.take(i as int) =~= listed);
    sizes
}

/// A size at which a prefix diverges is one of the prefix.
proof fn divergence_is_seen(list: Seq<CheckpointView>, count: int, size: u64)
    requires
        by_size(list),
        0 <= count < list.len(),
        diverges_at(list.take(count), size),
    ensures
        size <= list[count].tree_size,
{
    let some = list.take(count);
    let (i, j) = choose|i: int, j: int|
        0 <= i < some.len() && 0 <= j < some.len() && (#[trigger] some[i]).tree_size == size && (
        #[trigger] some[j]).tree_size == size && some[i].root_hash != some[j].root_hash;
    assert(list[i].tree_size <= list[count].tree_size);
}

/// With one more checkpoint a list that is ordered by size diverges where it did, and at the
/// new one's size where that one's root differs from the one before it of the same size.
proof fn one_more_divergence(list: Seq<CheckpointView>, at: int)
    requires
        by_size(list),
        0 <= at < list.len(),
    ensures
        forall|size: u64| #[trigger]
            diverges_at(list.take(at + 1), size) <==> diverges_at(list.take(at), size) || (at > 0
                && size == list[at].tree_size && list[at - 1].tree_size == size && list[at
                - 1].root_hash != list[at].root_hash),
{
    let some = list.take(at);
    let more = list.take(at + 1);
    assert forall|size: u64| #[trigger] diverges_at(more, size) <==> diverges_at(some, size) || (at
        > 0 && size == list[at].tree_size && list[at - 1].tree_size == size && list[at
        - 1].root_hash != list[at].root_hash) by {
        if diverges_at(some, size) {
            let (i, j) = choose|i: int, j: int|
                0 <= i < some.len() && 0 <= j < some.len() && (#[trigger] some[i]).tree_size == size
                    && (#[trigger] some[j]).tree_size == size && some[i].root_hash
                    != some[j].root_hash;
            assert(more[i] == some[i] && more[j] == some[j]);
        }
        if at > 0 && size == list[at].tree_size && list[at - 1].tree_size == size && list[at
            - 1].root_hash != list[at].root_hash {
            assert(more[at - 1].tree_size == size && more[at].tree_size == size);
        }
        if diverges_at(more, size) && !diverges_at(some, size) {
            let (i, j) = choose|i: int, j: int|
                0 <= i < more.len() && 0 <= j < more.len() && (#[trigger] more[i]).tree_size == size
                    && (#[trigger] more[j]).tree_size == size && more[i].root_hash
                    != more[j].root_hash;
            let other = if i == at { j } else { i };
            if i < at && j < at {
                assert(some[i] == more[i] && some[j] == more[j]);
            } else {
                assert(other < at);
                assert(list[other].tree_size <= list[at - 1].tree_size <= list[at].tree_size) by {
                    if other < at - 1 {
                        assert(list[other].tree_size <= list[at - 1].tree_size);
                    }
                    assert(list[at - 1].tree_size <= list[at].tree_size);
                }
                assert(some[other] == list[other] && some[at - 1] == list[at - 1]);
                if list[at - 1].root_hash == list[at].root_hash {
                    assert(some[other].root_hash != some[at - 1].root_hash);
                }
            }
        }
    }
}

/// A list in weak order is ordered by size.
proof fn weak_order_is_by_size(list: Seq<CheckpointView>)
    requires
        in_weak_order(list),
    ensures
        by_size(list),
{
    assert forall|i: int, j: int| 0 <= i < j < list.len() implies (#[trigger] list[i]).tree_size <= (
    #[trigger] list[j]).tree_size by {
        assert(!comes_before(list[j], list[i]));
    }
}

/// The checkpoints of two lists in one, each of the three ordered by size.
fn merge_by_size(first: &Vec<Checkpoint>, second: &Vec<Checkpoint>) -> (merged: Vec<Checkpoint>)
    requires
        by_size(checkpoints_view(first@)),
        by_size(checkpoints_view(second@)),
    ensures
        by_size(checkpoints_view(merged@)),
        forall|cp: CheckpointView| #[trigger]
            checkpoints_view(merged@).contains(cp) <==> checkpoints_view(first@).contains(cp)
                || checkpoints_view(second@).contains(cp),
{
    let ghost left = checkpoints_view(first@);
    let ghost right = checkpoints_view(second@);
    let mut merged: Vec<Checkpoint> = Vec::new();
    let mut i: usize = 0;
    let mut j: usize = 0;
    while i < first.len() || j < second.len()
        invariant
            i <= first@.len(),
            j <= second@.len(),
            left == checkpoints_view(first@),
            right == checkpoints_view(second@),
            by_size(left),
            by_size(right),
            by_size(checkpoints_view(merged@)),
            forall|k: int|
                0 <= k < merged@.len() && i < left.len() ==> (#[trigger] merged@[k]).tree_size
                    <= left[i as int].tree_size,
            forall|k: int|
                0 <= k < merged@.len() && j < right.len() ==> (#[trigger] merged@[k]).tree_size
                    <= right[j as int].tree_size,
            forall|cp: CheckpointView| #[trigger]
                checkpoints_view(merged@).contains(cp) <==> left.take(i as int).contains(cp)
                    || right.take(j as int).contains(cp),
        decreases first.len() - i + second.len() - j,
    {
        let ghost before = checkpoints_view(merged@);
        let from_left: bool = if i < first.len() {
            if j < second.len() {
                first[i].tree_size <= second[j].tree_size
            } else {
                true
            }
        } else {
            false
        };
        if from_left {
            merged.push(first[i].clone());
            proof {
                let cp = left[i as int];
                assert(checkpoints_view(merged@) =~= before.push(cp));
                assert(left.take(i + 1) =~= left.take(i as int).push(cp));
                pushed_contains(before, cp);
                pushed_contains(left.take(i as int), cp);
                if i + 1 < left.len() {
                    assert(left[i as int].tree_size <= left[i + 1].tree_size);
                }
            }
            i += 1;
        } else {
            merged.push(second[j].clone());
            proof {
                let cp = right[j as int];
                assert(checkpoints_view(merged@) =~= before.push(cp));
                assert(right.take(j + 1) =~= right.take(j as int).push(cp));
                pushed_contains(before, cp);
                pushed_contains(right.take(j as int), cp);
                if j + 1 < right.len() {
                    assert(right[j as int].tree_size <= right[j + 1].tree_size);
                }
            }
            j += 1;
        }
    }
    assert(left.take(i as int) =~= left);
    assert(right.take(j as int) =~= right);
    merged
}

/// A list with one more member contains it and what it contained.
proof fn pushed_contains(list: Seq<CheckpointView>, cp: CheckpointView)
    ensures
        forall|x: CheckpointView| #[trigger]
            list.push(cp).contains(x) <==> list.contains(x) || x == cp,
{
    assert forall|x: CheckpointView| #[trigger] list.push(cp).contains(x) <==> list.contains(x) || x
        == cp by {
        if list.contains(x) {
            let k = choose|k: int| 0 <= k < list.len() && list[k] == x;
            assert(list.push(cp)[k] == x);
        }
        if x == cp {
            assert(list.push(cp)[list.len() as int] == x);
        }
    }
}

/// Whether a list diverges depends on what it contains alone.
proof fn divergence_is_of_the_contents(a: Seq<CheckpointView>, b: Seq<CheckpointView>, size: u64)
    requires
        forall|cp: CheckpointView| #[trigger] a.contains(cp) ==> b.contains(cp),
    ensures
        diverges_at(a, size) ==> diverges_at(b, size),
{
    if diverges_at(a, size) {
        let (i, j) = choose|i: int, j: int|
            0 <= i < a.len() && 0 <= j < a.len() && (#[trigger] a[i]).tree_size == size && (
            #[trigger] a[j]).tree_size == size && a[i].root_hash != a[j].root_hash;
        assert(a.contains(a[i]) && a.contains(a[j]));
        let k = choose|k: int| 0 <= k < b.len() && b[k] == a[i];
        let m = choose|m: int| 0 <= m < b.len() && b[m] == a[j];
        assert(b[k].tree_size == size && b[m].tree_size == size);
    }
}

/// The sizes at which authenticated checkpoints have different roots, and the lowest of them.
fn find_divergences(store: &Store) -> (found: MirrorResult<(Vec<u64>, Option<u64>)>)
    requires
        store.wf(),
    ensures
        match found {
            Ok((sizes, floor)) => names_divergences(sizes@, store@.authenticated()) && floor
                == floor_of(store@.authenticated()),
            Err(_) => false,
        },
{
    let series: Vec<Checkpoint> = store.all_checkpoints()?;
    let anchors: Vec<Checkpoint> = bare_anchors(&store.all_rotation_checkpoints()?);
    let superseded: Vec<Checkpoint> = store.superseded_checkpoints();
    proof {
        store.is_valid();
        series_order_is_weak_order(store@.checkpoints);
        weak_order_is_by_size(store@.checkpoints);
        weak_order_is_by_size(anchor_checkpoints(store@.anchors));
        weak_order_is_by_size(store@.superseded);
    }
    let served: Vec<Checkpoint> = merge_by_size(&series, &anchors);
    let merged: Vec<Checkpoint> = merge_by_size(&served, &superseded);
    let sizes: Vec<u64> = find_root_divergences(&merged);
    let ghost all = store@.authenticated();
    proof {
        let m = checkpoints_view(merged@);
        let series = store@.checkpoints;
        let anchors = anchor_checkpoints(store@.anchors);
        joined_contains(series, anchors);
        joined_contains(series + anchors, store@.superseded);
        assert forall|cp: CheckpointView| #[trigger] all.contains(cp) <==> m.contains(cp) by {}
        assert forall|size: u64| sizes@.contains(size) <==> #[trigger] diverges_at(all, size) by {
            divergence_is_of_the_contents(all, m, size);
            divergence_is_of_the_contents(m, all, size);
        }
    }
    let floor: Option<u64> = if sizes.len() > 0 {
        Some(sizes[0])
    } else {
        None
    };
    proof {
        the_first_divergence_is_the_floor(sizes@, all);
    }
    Ok((sizes, floor))
}

/// The first of the sizes at which roots differ is the floor.
proof fn the_first_divergence_is_the_floor(sizes: Seq<u64>, list: Seq<CheckpointView>)
    requires
        names_divergences(sizes, list),
    ensures
        floor_of(list) == (if sizes.len() > 0 {
            Some(sizes[0])
        } else {
            None
        }),
{
    if sizes.len() > 0 {
        assert(sizes.contains(sizes[0]));
        assert forall|lower: u64| lower < sizes[0] implies !#[trigger] diverges_at(list, lower) by {
            if diverges_at(list, lower) {
                let k = choose|k: int| 0 <= k < sizes.len() && sizes[k] == lower;
                if k > 0 {
                    assert(sizes[0] < sizes[k]);
                }
            }
        }
        assert(is_floor(list, sizes[0]));
        let floor = floor_of(list)->0;
        assert(is_floor(list, floor));
        if floor < sizes[0] {
            assert(!diverges_at(list, floor));
        } else if sizes[0] < floor {
            assert(!diverges_at(list, sizes[0]));
        }
    } else {
        assert forall|size: u64| !is_floor(list, size) by {
            assert(diverges_at(list, size) ==> sizes.contains(size));
        }
    }
}

// ---- the frontier ----

impl StoreView {
    /// The governance in force at a tree size, where the entries reach it and a chain covers it.
    pub open spec fn governed_at(self, config: ConfigView, tree_size: u64) -> Result<
        Option<GovernanceView>,
        Fault,
    > {
        if tree_size > MAX_LEAVES {
            Err(Fault::IndexOverflow { what: "to_index"@ })
        } else if tree_size > self.entries.len() {
            Ok(None)
        } else {
            match governance_after(
                envelopes_of(self.entries).take(tree_size as int),
                config,
            ) {
                Ok(state) => Ok(Some(state)),
                Err(Fault::GovernanceChainUnresolvable { .. }) => Ok(None),
                Err(fault) => Err(fault),
            }
        }
    }

    /// How far usable members from the one at `next` on extend a frontier, judged against the
    /// member before it: each must lie below the floor, not be earlier, and come within the
    /// cadence in force at the earlier of the two.
    pub open spec fn extending(
        self,
        config: ConfigView,
        usable: Seq<CheckpointView>,
        floor: Option<u64>,
        next: nat,
        frontier: u64,
        time: u64,
    ) -> Result<(Option<u64>, Option<FrontierStop>), Fault>
        decreases usable.len() - next,
    {
        if next >= usable.len() || next == 0 {
            Ok((Some(frontier), floor_stop(floor)))
        } else {
            let cp = usable[next as int];
            let before = usable[next - 1];
            if at_or_beyond(cp.tree_size, floor) {
                Ok((Some(frontier), floor_stop(floor)))
            } else {
                match checkpoint_time_nanos(cp.checkpoint_time) {
                    Err(fault) => Err(fault),
                    Ok(now) => if now < time {
                        Ok(
                            (
                                Some(frontier),
                                Some(
                                    FrontierStop::DecreasingTime {
                                        after_tree_size: before.tree_size,
                                    },
                                ),
                            ),
                        )
                    } else {
                        match self.governed_at(config, before.tree_size) {
                            Err(fault) => Err(fault),
                            Ok(None) => Ok(
                                (
                                    Some(frontier),
                                    Some(
                                        FrontierStop::GovernanceUnresolvable {
                                            at_tree_size: before.tree_size,
                                        },
                                    ),
                                ),
                            ),
                            Ok(Some(governance)) => if now - time > governance.cadence_nanos {
                                Ok(
                                    (
                                        Some(frontier),
                                        Some(
                                            FrontierStop::CadenceExceeded {
                                                after_tree_size: before.tree_size,
                                            },
                                        ),
                                    ),
                                )
                            } else {
                                self.extending(
                                    config,
                                    usable,
                                    floor,
                                    next + 1,
                                    cp.tree_size,
                                    now,
                                )
                            },
                        }
                    },
                }
            }
        }
    }

    /// The time of the first usable member, where the series can start with it: a governing
    /// chain covers it, and it is not before the epoch nor more than one cadence of the genesis
    /// version after it.
    pub open spec fn starting(self, config: ConfigView, first: CheckpointView) -> Result<
        Result<u64, FrontierStop>,
        Fault,
    > {
        match self.governed_at(config, first.tree_size) {
            Err(fault) => Err(fault),
            Ok(None) => Ok(
                Err(FrontierStop::GovernanceUnresolvable { at_tree_size: first.tree_size }),
            ),
            Ok(Some(governance)) => if governance.genesis_entry_index == u64::MAX {
                Err(Fault::IndexOverflow { what: "genesis_entry_index"@ })
            } else {
                let genesis_size = (governance.genesis_entry_index + 1) as u64;
                match self.governed_at(config, genesis_size) {
                    Err(fault) => Err(fault),
                    Ok(None) => Ok(
                        Err(FrontierStop::GovernanceUnresolvable { at_tree_size: genesis_size }),
                    ),
                    Ok(Some(genesis)) => match checkpoint_time_nanos(first.checkpoint_time) {
                        Err(fault) => Err(fault),
                        Ok(time) => if genesis.cadence_epoch_nanos <= time && time
                            - genesis.cadence_epoch_nanos <= genesis.cadence_nanos {
                            Ok(Ok(time))
                        } else {
                            Ok(Err(FrontierStop::NoValidStart))
                        },
                    },
                }
            },
        }
    }

    /// How far the usable members are free of gaps, and why no further.
    pub open spec fn frontier(
        self,
        config: ConfigView,
        usable: Seq<CheckpointView>,
        floor: Option<u64>,
    ) -> Result<(Option<u64>, Option<FrontierStop>), Fault> {
        if usable.len() == 0 || at_or_beyond(usable[0].tree_size, floor) {
            Ok((None, floor_stop(floor)))
        } else {
            match self.starting(config, usable[0]) {
                Err(fault) => Err(fault),
                Ok(Err(stop)) => Ok((None, Some(stop))),
                Ok(Ok(time)) => self.extending(
                    config,
                    usable,
                    floor,
                    1,
                    usable[0].tree_size,
                    time,
                ),
            }
        }
    }
}

/// Whether a size is at or beyond the floor, if there is one.
pub open spec fn at_or_beyond(tree_size: u64, floor: Option<u64>) -> bool {
    floor matches Some(size) && tree_size >= size
}

/// The stop that a floor is.
pub open spec fn floor_stop(floor: Option<u64>) -> Option<FrontierStop> {
    match floor {
        Some(size) => Some(FrontierStop::Equivocation { at_tree_size: size }),
        None => None,
    }
}

/// Whether a size is at or beyond the floor.
fn is_at_or_beyond(tree_size: u64, floor: Option<u64>) -> (beyond: bool)
    ensures
        beyond == at_or_beyond(tree_size, floor),
{
    match floor {
        Some(size) => tree_size >= size,
        None => false,
    }
}

/// The stop that a floor is.
fn stop_at(floor: Option<u64>) -> (stop: Option<FrontierStop>)
    ensures
        stop == floor_stop(floor),
{
    match floor {
        Some(size) => Some(FrontierStop::Equivocation { at_tree_size: size }),
        None => None,
    }
}

/// Resolve the governance in force at a tree size from the canonical entries.
pub fn resolve_governance_for(store: &Store, config: &Config, tree_size: u64) -> (resolved:
    MirrorResult<Option<GovernanceState>>)
    requires
        store.wf(),
    ensures
        match resolved {
            Ok(Some(state)) => gives(store@.governed_at(config@, tree_size), Some(state@)),
            Ok(None) => gives(store@.governed_at(config@, tree_size), None),
            Err(error) => refuses(store@.governed_at(config@, tree_size), error),
        },
{
    let entries: Vec<Vec<u8>> = store.get_entries_range(0, tree_size)?;
    proof {
        store.is_valid();
        assert(bytes_view(entries@).len() == entries@.len());
        if tree_size <= store@.entries.len() {
            assert(envelopes_of(store@.window(0, tree_size as int)) =~= envelopes_of(
                store@.entries,
            ).take(tree_size as int));
        }
    }
    if entries.len() as u64 != tree_size {
        return Ok(None);
    }
    match resolve(&entries, config) {
        Ok(state) => Ok(Some(state)),
        Err(MirrorError::GovernanceChainUnresolvable { .. }) => Ok(None),
        Err(error) => Err(error),
    }
}

/// Whether the series can start with a member, and at what time.
fn judge_start(store: &Store, config: &Config, first: &Checkpoint) -> (judged: MirrorResult<
    Result<u64, FrontierStop>,
>)
    requires
        store.wf(),
    ensures
        match judged {
            Ok(start) => gives(store@.starting(config@, first@), start),
            Err(error) => refuses(store@.starting(config@, first@), error),
        },
{
    let governance: GovernanceState = match resolve_governance_for(
        store,
        config,
        first.tree_size,
    )? {
        Some(governance) => governance,
        None => {
            return Ok(
                Err(FrontierStop::GovernanceUnresolvable { at_tree_size: first.tree_size }),
            );
        },
    };
    let genesis_size: u64 = match governance.genesis_entry_index().checked_add(1) {
        Some(size) => size,
        None => {
            return Err(MirrorError::IndexOverflow { what: "genesis_entry_index" });
        },
    };
    let genesis: GovernanceState = match resolve_governance_for(store, config, genesis_size)? {
        Some(genesis) => genesis,
        None => {
            return Ok(Err(FrontierStop::GovernanceUnresolvable { at_tree_size: genesis_size }));
        },
    };
    let time: u64 = parse_checkpoint_time(first.checkpoint_time.as_str())?;
    let epoch: u64 = genesis.cadence_epoch_nanos();
    if epoch <= time && time - epoch <= genesis.cadence_nanos() {
        Ok(Ok(time))
    } else {
        Ok(Err(FrontierStop::NoValidStart))
    }
}

/// Compute how far the usable members are free of gaps, and why no further.
pub fn compute_gap_free_frontier(
    store: &Store,
    config: &Config,
    usable: &Vec<Checkpoint>,
    equivocation_floor: Option<u64>,
) -> (computed: MirrorResult<(Option<u64>, Option<FrontierStop>)>)
    requires
        store.wf(),
    ensures
        match computed {
            Ok(result) => gives(
                store@.frontier(config@, checkpoints_view(usable@), equivocation_floor),
                result,
            ),
            Err(error) => refuses(
                store@.frontier(config@, checkpoints_view(usable@), equivocation_floor),
                error,
            ),
        },
{
    let ghost listed = checkpoints_view(usable@);
    if usable.len() == 0 || is_at_or_beyond(usable[0].tree_size, equivocation_floor) {
        return Ok((None, stop_at(equivocation_floor)));
    }
    let mut time: u64 = match judge_start(store, config, &usable[0])? {
        Ok(time) => time,
        Err(stop) => {
            return Ok((None, Some(stop)));
        },
    };
    let mut frontier: u64 = usable[0].tree_size;
    let mut next: usize = 1;
    while next < usable.len()
        invariant
            store.wf(),
            1 <= next <= usable@.len(),
            listed == checkpoints_view(usable@),
            store@.frontier(config@, listed, equivocation_floor) == store@.extending(
                config@,
                listed,
                equivocation_floor,
                next as nat,
                frontier,
                time,
            ),
        decreases usable.len() - next,
    {
        let cp: &Checkpoint = &usable[next];
        let before: u64 = usable[next - 1].tree_size;
        proof {
            assert(listed[next as int] == cp@);
            assert(listed[next - 1] == usable@[next - 1]@);
        }
        if is_at_or_beyond(cp.tree_size, equivocation_floor) {
            return Ok((Some(frontier), stop_at(equivocation_floor)));
        }
        let now: u64 = parse_checkpoint_time(cp.checkpoint_time.as_str())?;
        if now < time {
            return Ok(
                (Some(frontier), Some(FrontierStop::DecreasingTime { after_tree_size: before })),
            );
        }
        let governance: GovernanceState = match resolve_governance_for(store, config, before)? {
            Some(governance) => governance,
            None => {
                return Ok(
                    (
                        Some(frontier),
                        Some(FrontierStop::GovernanceUnresolvable { at_tree_size: before }),
                    ),
                );
            },
        };
        if now - time > governance.cadence_nanos() {
            return Ok(
                (Some(frontier), Some(FrontierStop::CadenceExceeded { after_tree_size: before })),
            );
        }
        frontier = cp.tree_size;
        time = now;
        next += 1;
    }
    Ok((Some(frontier), stop_at(equivocation_floor)))
}

// ---- the view ----

/// What a series view reports.
pub ghost struct SeriesReport {
    pub members: Seq<Member>,
    pub gap_free_frontier: Option<u64>,
    pub frontier_stop: Option<FrontierStop>,
    pub equivocation_floor: Option<u64>,
}

impl View for SeriesView {
    type V = SeriesReport;

    open spec fn view(&self) -> SeriesReport {
        SeriesReport {
            members: members_view(self.members@),
            gap_free_frontier: self.gap_free_frontier,
            frontier_stop: self.frontier_stop,
            equivocation_floor: self.equivocation_floor,
        }
    }
}

impl StoreView {
    /// The series as it stands: every authenticated checkpoint with its state, the floor over
    /// all of them and the rotation anchors, and the frontier of the usable ones.
    pub open spec fn series(self, config: ConfigView) -> Result<SeriesReport, Fault> {
        match self.reporting(self.checkpoints) {
            Err(fault) => Err(fault),
            Ok(members) => {
                let floor = floor_of(self.authenticated());
                match self.frontier(config, usable_members(members), floor) {
                    Err(fault) => Err(fault),
                    Ok((gap_free_frontier, frontier_stop)) => Ok(
                        SeriesReport {
                            members,
                            gap_free_frontier,
                            frontier_stop,
                            equivocation_floor: floor,
                        },
                    ),
                }
            },
        }
    }
}

/// Report every member of the series with its state, and the usable ones apart.
fn report_members(store: &Store, series: &Vec<Checkpoint>) -> (reported: MirrorResult<
    (Vec<ReportedCheckpoint>, Vec<Checkpoint>),
>)
    requires
        store.wf(),
        checkpoints_view(series@) == store@.checkpoints,
    ensures
        match reported {
            Ok((members, usable)) => {
                &&& gives(store@.reporting(store@.checkpoints), members_view(members@))
                &&& checkpoints_view(usable@) == usable_members(members_view(members@))
                &&& store@.tree.held == complete_nodes(store@.entries.len())
                    ==> usable_means_genuine(store@, members_view(members@))
            },
            Err(error) => refuses(store@.reporting(store@.checkpoints), error),
        },
{
    let ghost listed = checkpoints_view(series@);
    let mut members: Vec<ReportedCheckpoint> = Vec::new();
    let mut usable: Vec<Checkpoint> = Vec::new();
    let mut i: usize = 0;
    proof {
        store.is_valid();
        assert(members_view(members@) =~= Seq::<Member>::empty());
        assert(checkpoints_view(usable@) =~= Seq::<CheckpointView>::empty());
    }
    while i < series.len()
        invariant
            store.wf(),
            i <= series@.len(),
            listed == checkpoints_view(series@),
            listed == store@.checkpoints,
            in_series_order(listed),
            members@.len() == i,
            gives(store@.reporting(listed.take(i as int)), members_view(members@)),
            checkpoints_view(usable@) == usable_members(members_view(members@)),
            last_usable(members_view(members@)) == (if usable@.len() > 0 {
                Some(usable@[usable@.len() - 1]@)
            } else {
                None
            }),
            usable@.len() > 0 ==> exists|k: int|
                0 <= k < i && #[trigger] listed[k] == usable@[usable@.len() - 1]@,
            store@.tree.held == complete_nodes(store@.entries.len()) ==> usable_means_genuine(
                store@,
                members_view(members@),
            ) && (usable@.len() > 0 ==> store@.genuine(usable@[usable@.len() - 1]@)),
        decreases series.len() - i,
    {
        let cp: &Checkpoint = &series[i];
        let pred: Option<&Checkpoint> = if usable.len() > 0 {
            Some(&usable[usable.len() - 1])
        } else {
            None
        };
        let ghost before = members_view(members@);
        let ghost chosen = checkpoints_view(usable@);
        proof {
            assert(listed.take(i + 1).drop_last() =~= listed.take(i as int));
            assert(listed.take(i + 1).last() == cp@);
            if usable@.len() > 0 {
                let k = choose|k: int|
                    0 <= k < i && #[trigger] listed[k] == usable@[usable@.len() - 1]@;
                assert(comes_before(listed[k], listed[i as int]));
            }
        }
        let is_usable: bool = match settle_usability(series_usable_stored(store, cp, pred)) {
            Ok(is_usable) => is_usable,
            Err(error) => {
                proof {
                    a_refused_member_stands(store@, listed, i + 1);
                }
                return Err(error);
            },
        };
        let state: CheckpointState = if is_usable {
            CheckpointState::SeriesUsable
        } else {
            CheckpointState::Authenticated
        };
        proof {
            store.is_valid();
            usability_is_genuineness(store@, cp@, pred_view(pred));
            assert(store@.tree.held == complete_nodes(store@.entries.len()) ==> is_usable
                == store@.genuine(cp@));
        }
        members.push(ReportedCheckpoint { checkpoint: cp.clone(), state });
        proof {
            assert(members_view(members@) =~= before.push((cp@, state)));
            assert(members_view(members@).drop_last() =~= before);
            if store@.tree.held == complete_nodes(store@.entries.len()) {
                assert forall|k: int| 0 <= k < members_view(members@).len() implies ((
                #[trigger] members_view(members@)[k]).1 == CheckpointState::SeriesUsable)
                    == store@.genuine(members_view(members@)[k].0) by {
                    if k < before.len() {
                        assert(members_view(members@)[k] == before[k]);
                    }
                }
            }
        }
        if is_usable {
            usable.push(cp.clone());
            proof {
                assert(checkpoints_view(usable@) =~= chosen.push(cp@));
                assert(listed[i as int] == usable@[usable@.len() - 1]@);
            }
        }
        i += 1;
    }
    assert(listed.take(i as int) =~= listed);
    Ok((members, usable))
}

/// Whether each member is usable exactly where it is a checkpoint of this log.
pub open spec fn usable_means_genuine(store: StoreView, members: Seq<Member>) -> bool {
    forall|i: int|
        0 <= i < members.len() ==> ((#[trigger] members[i]).1 == CheckpointState::SeriesUsable)
            == store.genuine(members[i].0)
}

/// Compute the series as it stands. Where no tree node is lost, the usable members are exactly
/// those whose root is the root over the entries they commit.
pub fn series_view(store: &Store, config: &Config) -> (computed: MirrorResult<SeriesView>)
    requires
        store.wf(),
    ensures
        match computed {
            Ok(view) => {
                &&& gives(store@.series(config@), view@)
                &&& names_divergences(view.root_divergences@, store@.authenticated())
                &&& store@.tree.held == complete_nodes(store@.entries.len())
                    ==> usable_means_genuine(store@, view@.members)
            },
            Err(error) => refuses(store@.series(config@), error),
        },
{
    let series: Vec<Checkpoint> = store.all_checkpoints()?;
    let (members, usable): (Vec<ReportedCheckpoint>, Vec<Checkpoint>) = report_members(
        store,
        &series,
    )?;
    let (root_divergences, equivocation_floor): (Vec<u64>, Option<u64>) = find_divergences(store)?;
    let (gap_free_frontier, frontier_stop): (Option<u64>, Option<FrontierStop>) =
        compute_gap_free_frontier(store, config, &usable, equivocation_floor)?;
    Ok(
        SeriesView {
            members,
            gap_free_frontier,
            frontier_stop,
            root_divergences,
            equivocation_floor,
        },
    )
}

/// A refused member within a series stands for the whole series.
proof fn a_refused_member_stands(store: StoreView, list: Seq<CheckpointView>, count: int)
    requires
        0 <= count <= list.len(),
        store.reporting(list.take(count)) is Err,
    ensures
        store.reporting(list) == store.reporting(list.take(count)),
    decreases list.len(),
{
    if count < list.len() {
        assert(list.drop_last().take(count) =~= list.take(count));
        a_refused_member_stands(store, list.drop_last(), count);
    } else {
        assert(list.take(count) =~= list);
    }
}

/// What is not a checkpoint of this log is not reported usable.
proof fn usability_is_genuineness(store: StoreView, cp: CheckpointView, pred: Option<CheckpointView>)
    requires
        store.valid(),
    ensures
        store.reported_usable(cp, pred) matches Ok(usable) ==> (usable ==> store.genuine(cp)),
        hash_of_text(cp.root_hash) is None || cp.tree_size > store.entries.len() ==> !store.genuine(
            cp,
        ),
{
    if cp.tree_size <= store.entries.len() {
        whole_roots_are_opened(store, cp.tree_size as nat);
    }
}

// ---- the bound ----

/// The first usable member beyond an index and within the frontier.
pub open spec fn bound_from(members: Seq<Member>, frontier: u64, index: u64) -> Option<
    CheckpointView,
>
    decreases members.len(),
{
    if members.len() == 0 {
        None
    } else if members[0].1 == CheckpointState::SeriesUsable && members[0].0.tree_size > index
        && members[0].0.tree_size <= frontier {
        Some(members[0].0)
    } else {
        bound_from(members.drop_first(), frontier, index)
    }
}

/// The checkpoint that bounds when the entry at an index was incorporated, where there is one.
pub open spec fn bound_of(report: SeriesReport, index: u64) -> Option<CheckpointView> {
    match report.gap_free_frontier {
        None => None,
        Some(frontier) => bound_from(report.members, frontier, index),
    }
}

/// The usable member with the smallest size beyond an index, the earliest of several, where it
/// lies within the gap-free frontier. `None` is no bound, never a guess.
pub fn itub(view: &SeriesView, index: u64) -> (bound: Option<&Checkpoint>)
    ensures
        match bound {
            Some(cp) => bound_of(view@, index) == Some(cp@),
            None => bound_of(view@, index) is None,
        },
{
    let frontier: u64 = match view.gap_free_frontier {
        Some(frontier) => frontier,
        None => {
            return None;
        },
    };
    let ghost members = view@.members;
    let mut i: usize = 0;
    assert(members.skip(0) =~= members);
    while i < view.members.len()
        invariant
            i <= view.members@.len(),
            members == members_view(view.members@),
            members == view@.members,
            bound_from(members, frontier, index) == bound_from(
                members.skip(i as int),
                frontier,
                index,
            ),
            bound_of(view@, index) == bound_from(members, frontier, index),
        decreases view.members.len() - i,
    {
        let member: &ReportedCheckpoint = &view.members[i];
        proof {
            assert(members.skip(i as int).drop_first() =~= members.skip(i + 1));
            assert(members.skip(i as int)[0] == (member.checkpoint@, member.state));
        }
        if member.state == CheckpointState::SeriesUsable && member.checkpoint.tree_size > index
            && member.checkpoint.tree_size <= frontier {
            return Some(&member.checkpoint);
        }
        i += 1;
    }
    None
}

// ---- laws ----

impl StoreView {
    /// Whether a member follows on another without a gap: it lies below the floor, is not
    /// earlier, and comes within the cadence in force at the other's size.
    pub open spec fn follows_on(
        self,
        config: ConfigView,
        before: CheckpointView,
        cp: CheckpointView,
        floor: Option<u64>,
    ) -> bool {
        &&& !at_or_beyond(cp.tree_size, floor)
        &&& checkpoint_time_nanos(before.checkpoint_time) matches Ok(earlier)
        &&& checkpoint_time_nanos(cp.checkpoint_time) matches Ok(later)
        &&& earlier <= later
        &&& self.governed_at(config, before.tree_size) matches Ok(Some(governance))
        &&& later - earlier <= governance.cadence_nanos
    }

    /// Whether the first `count` usable members are free of gaps: the series can start with the
    /// first, below the floor, and each one after it follows on the one before.
    pub open spec fn gap_free(
        self,
        config: ConfigView,
        usable: Seq<CheckpointView>,
        floor: Option<u64>,
        count: nat,
    ) -> bool {
        &&& 1 <= count <= usable.len()
        &&& !at_or_beyond(usable[0].tree_size, floor)
        &&& self.starting(config, usable[0]) matches Ok(Ok(_))
        &&& forall|k: int|
            #![trigger usable[k]]
            1 <= k < count ==> self.follows_on(config, usable[k - 1], usable[k], floor)
    }

    /// Whether a frontier is that of the longest run of usable members that is free of gaps,
    /// with a reason wherever it is not the end of them.
    pub open spec fn is_longest_run(
        self,
        config: ConfigView,
        usable: Seq<CheckpointView>,
        floor: Option<u64>,
        frontier: u64,
        stop: Option<FrontierStop>,
        count: nat,
    ) -> bool {
        &&& self.gap_free(config, usable, floor, count)
        &&& frontier == usable[count - 1].tree_size
        &&& !self.gap_free(config, usable, floor, count + 1)
        &&& count < usable.len() ==> stop is Some
        &&& count == usable.len() ==> stop == floor_stop(floor)
    }
}

/// A run is extended by one member exactly where that member follows on; elsewhere it ends, with
/// a reason.
proof fn extending_takes_what_follows_on(
    store: StoreView,
    config: ConfigView,
    usable: Seq<CheckpointView>,
    floor: Option<u64>,
    next: nat,
    time: u64,
)
    requires
        1 <= next < usable.len(),
        checkpoint_time_nanos(usable[next - 1].checkpoint_time) == Ok::<u64, Fault>(time),
    ensures
        ({
            let frontier = usable[next - 1].tree_size;
            let cp = usable[next as int];
            let extended = store.extending(config, usable, floor, next, frontier, time);
            if store.follows_on(config, usable[next - 1], cp, floor) {
                checkpoint_time_nanos(cp.checkpoint_time) matches Ok(now) && extended
                    == store.extending(config, usable, floor, next + 1, cp.tree_size, now)
            } else {
                extended matches Ok((reach, stop)) ==> reach == Some(frontier) && stop is Some
            }
        }),
{
}

/// A run is free of gaps with one more member exactly where it was before and the member follows
/// on.
proof fn a_run_grows_by_what_follows_on(
    store: StoreView,
    config: ConfigView,
    usable: Seq<CheckpointView>,
    floor: Option<u64>,
    next: nat,
)
    requires
        1 <= next,
        store.gap_free(config, usable, floor, next),
    ensures
        store.gap_free(config, usable, floor, next + 1) <==> next < usable.len()
            && store.follows_on(config, usable[next - 1], usable[next as int], floor),
{
    if store.gap_free(config, usable, floor, next + 1) {
        let last = usable[next as int];
        assert(store.follows_on(config, usable[next - 1], last, floor));
    }
}

/// Extending a run that is free of gaps reaches the longest one, whose length is returned.
proof fn extending_reaches_the_longest_run(
    store: StoreView,
    config: ConfigView,
    usable: Seq<CheckpointView>,
    floor: Option<u64>,
    next: nat,
    time: u64,
) -> (count: nat)
    requires
        store.gap_free(config, usable, floor, next),
        checkpoint_time_nanos(usable[next - 1].checkpoint_time) == Ok::<u64, Fault>(time),
    ensures
        store.extending(config, usable, floor, next, usable[next - 1].tree_size, time) matches Ok((
            reach,
            stop,
        )) ==> reach is Some && store.is_longest_run(config, usable, floor, reach->0, stop, count),
    decreases usable.len() - next,
{
    a_run_grows_by_what_follows_on(store, config, usable, floor, next);
    if next < usable.len() {
        extending_takes_what_follows_on(store, config, usable, floor, next, time);
        if store.gap_free(config, usable, floor, next + 1) {
            let now = checkpoint_time_nanos(usable[next as int].checkpoint_time)->Ok_0;
            extending_reaches_the_longest_run(store, config, usable, floor, next + 1, now)
        } else {
            next
        }
    } else {
        next
    }
}

/// The frontier is the size of the last member of the longest run of usable members that is
/// free of gaps at the declared cadence; there is none exactly where no such run starts. A
/// reason is given wherever the run ends before the usable members do.
pub proof fn the_frontier_ends_the_longest_gap_free_run(
    store: StoreView,
    config: ConfigView,
    usable: Seq<CheckpointView>,
    floor: Option<u64>,
)
    ensures
        store.frontier(config, usable, floor) matches Ok((reach, stop)) ==> match reach {
            Some(frontier) => exists|count: nat| #[trigger]
                store.is_longest_run(config, usable, floor, frontier, stop, count),
            None => !store.gap_free(config, usable, floor, 1),
        },
{
    if usable.len() > 0 && !at_or_beyond(usable[0].tree_size, floor) {
        if let Ok(Ok(time)) = store.starting(config, usable[0]) {
            assert(store.gap_free(config, usable, floor, 1));
            let count = extending_reaches_the_longest_run(store, config, usable, floor, 1, time);
            if let Ok((reach, stop)) = store.frontier(config, usable, floor) {
                assert(store.is_longest_run(config, usable, floor, reach->0, stop, count));
            }
        }
    }
}

/// The frontier never reaches the floor: nothing at or beyond the lowest size the log
/// contradicted itself at is ever vouched for.
pub proof fn the_frontier_stays_below_the_floor(
    store: StoreView,
    config: ConfigView,
    usable: Seq<CheckpointView>,
    floor: u64,
)
    ensures
        store.frontier(config, usable, Some(floor)) matches Ok((Some(frontier), _)) ==> frontier
            < floor,
        store.frontier(config, usable, Some(floor)) matches Ok((_, stop)) ==> stop is Some,
{
    if usable.len() > 0 && !at_or_beyond(usable[0].tree_size, Some(floor)) {
        if let Ok(Ok(time)) = store.starting(config, usable[0]) {
            an_extension_stays_below(
                store,
                config,
                usable,
                floor,
                1,
                usable[0].tree_size,
                time,
            );
        }
    }
}

/// An extension of a frontier below the floor stays below it.
proof fn an_extension_stays_below(
    store: StoreView,
    config: ConfigView,
    usable: Seq<CheckpointView>,
    floor: u64,
    next: nat,
    frontier: u64,
    time: u64,
)
    requires
        frontier < floor,
        next >= 1,
    ensures
        store.extending(config, usable, Some(floor), next, frontier, time) matches Ok((end, stop))
            ==> end is Some && end->0 < floor && stop is Some,
    decreases usable.len() - next,
{
    if next < usable.len() && !at_or_beyond(usable[next as int].tree_size, Some(floor)) {
        if let Ok(now) = checkpoint_time_nanos(usable[next as int].checkpoint_time) {
            an_extension_stays_below(
                store,
                config,
                usable,
                floor,
                next + 1,
                usable[next as int].tree_size,
                now,
            );
        }
    }
}

/// A contradiction is permanent: with more authenticated checkpoints a floor stays or sinks,
/// and never rises or goes away.
pub proof fn a_floor_is_permanent(less: Seq<CheckpointView>, more: Seq<CheckpointView>)
    requires
        forall|cp: CheckpointView| #[trigger] less.contains(cp) ==> more.contains(cp),
    ensures
        floor_of(less) matches Some(old_floor) ==> floor_of(more) matches Some(new_floor)
            && new_floor <= old_floor,
{
    if let Some(old_floor) = floor_of(less) {
        assert(is_floor(less, old_floor));
        divergence_is_of_the_contents(less, more, old_floor);
        a_divergence_has_a_floor(more, old_floor);
    }
}

/// Where roots differ at some size, there is a floor at or below it.
pub proof fn a_divergence_has_a_floor(list: Seq<CheckpointView>, size: u64)
    requires
        diverges_at(list, size),
    ensures
        floor_of(list) matches Some(floor) && floor <= size,
    decreases size,
{
    if is_floor(list, size) {
        let floor = floor_of(list)->0;
        assert(is_floor(list, floor));
        if floor > size {
            assert(!diverges_at(list, size));
        }
    } else {
        let lower = choose|lower: u64| lower < size && #[trigger] diverges_at(list, lower);
        a_divergence_has_a_floor(list, lower);
    }
}

/// A bound is a usable member beyond the index, within the frontier and below the floor; every
/// usable member beyond the index and within the frontier comes after it or is it.
pub proof fn a_bound_is_the_tightest_within_the_frontier(
    store: StoreView,
    config: ConfigView,
    index: u64,
)
    requires
        store.valid(),
        store.series(config) is Ok,
        bound_of(store.series(config)->Ok_0, index) is Some,
    ensures
        ({
            let report = store.series(config)->Ok_0;
            let bound = bound_of(report, index)->0;
            &&& report.members.contains((bound, CheckpointState::SeriesUsable))
            &&& index < bound.tree_size
            &&& report.gap_free_frontier matches Some(frontier) && bound.tree_size <= frontier
            &&& report.equivocation_floor matches Some(floor) ==> bound.tree_size < floor
            &&& forall|i: int|
                0 <= i < report.members.len() && (#[trigger] report.members[i]).1
                    == CheckpointState::SeriesUsable && report.members[i].0.tree_size > index
                    && report.members[i].0.tree_size <= report.gap_free_frontier->0
                    ==> report.members[i].0 == bound || comes_before(bound, report.members[i].0)
        }),
{
    let report = store.series(config)->Ok_0;
    let frontier = report.gap_free_frontier->0;
    members_are_the_series(store, store.checkpoints);
    a_bound_is_found(report.members, frontier, index);
    let k = choose|k: int|
        0 <= k < report.members.len() && is_bound(report.members, frontier, index, k);
    assert(report.members.contains(report.members[k]));
    if let Some(floor) = report.equivocation_floor {
        the_frontier_stays_below_the_floor(
            store,
            config,
            usable_members(report.members),
            floor,
        );
    }
    assert forall|i: int|
        0 <= i < report.members.len() && (#[trigger] report.members[i]).1
            == CheckpointState::SeriesUsable && report.members[i].0.tree_size > index
            && report.members[i].0.tree_size <= frontier implies report.members[i].0
        == report.members[k].0 || comes_before(report.members[k].0, report.members[i].0) by {
        if i > k {
            assert(comes_before(store.checkpoints[k], store.checkpoints[i]));
        }
    }
}

/// Whether the member at a place is the first that bounds an index.
spec fn is_bound(members: Seq<Member>, frontier: u64, index: u64, k: int) -> bool {
    &&& members[k].1 == CheckpointState::SeriesUsable
    &&& index < members[k].0.tree_size <= frontier
    &&& bound_from(members, frontier, index) == Some(members[k].0)
    &&& forall|i: int|
        0 <= i < k ==> !((#[trigger] members[i]).1 == CheckpointState::SeriesUsable && index
            < members[i].0.tree_size <= frontier)
}

/// A bound is the first member that bounds the index.
proof fn a_bound_is_found(members: Seq<Member>, frontier: u64, index: u64)
    requires
        bound_from(members, frontier, index) is Some,
    ensures
        exists|k: int| 0 <= k < members.len() && is_bound(members, frontier, index, k),
    decreases members.len(),
{
    if members[0].1 == CheckpointState::SeriesUsable && members[0].0.tree_size > index
        && members[0].0.tree_size <= frontier {
        assert(is_bound(members, frontier, index, 0));
    } else {
        let rest = members.drop_first();
        a_bound_is_found(rest, frontier, index);
        let k = choose|k: int| 0 <= k < rest.len() && is_bound(rest, frontier, index, k);
        assert(rest[k] == members[k + 1]);
        assert forall|i: int| 0 <= i < k + 1 implies !((#[trigger] members[i]).1
            == CheckpointState::SeriesUsable && index < members[i].0.tree_size <= frontier) by {
            if i > 0 {
                assert(rest[i - 1] == members[i]);
            }
        }
        assert(is_bound(members, frontier, index, k + 1));
    }
}

/// Nothing is hidden: the members reported are the series, one for one and in order.
pub proof fn members_are_the_series(store: StoreView, list: Seq<CheckpointView>)
    ensures
        store.reporting(list) matches Ok(members) ==> members.len() == list.len() && forall|i: int|
            0 <= i < list.len() ==> (#[trigger] members[i]).0 == list[i],
    decreases list.len(),
{
    if list.len() > 0 {
        members_are_the_series(store, list.drop_last());
        if let Ok(members) = store.reporting(list) {
            let before = store.reporting(list.drop_last())->Ok_0;
            assert forall|i: int| 0 <= i < list.len() implies (#[trigger] members[i]).0
                == list[i] by {
                if i < before.len() {
                    assert(members[i] == before[i]);
                    assert(list.drop_last()[i] == list[i]);
                }
            }
        }
    }
}

/// Two usable members of one size have one root.
pub proof fn usable_members_of_one_size_agree(store: StoreView, list: Seq<CheckpointView>, i: int, j: int)
    requires
        store.valid(),
        store.reporting(list) is Ok,
        0 <= i < list.len(),
        0 <= j < list.len(),
        store.reporting(list)->Ok_0[i].1 == CheckpointState::SeriesUsable,
        store.reporting(list)->Ok_0[j].1 == CheckpointState::SeriesUsable,
        list[i].tree_size == list[j].tree_size,
    ensures
        hash_of_text(list[i].root_hash) is Some,
        hash_of_text(list[i].root_hash) == hash_of_text(list[j].root_hash),
{
    usable_members_are_genuine(store, list, i);
    usable_members_are_genuine(store, list, j);
}

/// A usable member is a checkpoint of this log.
pub proof fn usable_members_are_genuine(store: StoreView, list: Seq<CheckpointView>, i: int)
    requires
        store.valid(),
        store.reporting(list) is Ok,
        0 <= i < list.len(),
        store.reporting(list)->Ok_0[i].1 == CheckpointState::SeriesUsable,
    ensures
        store.genuine(list[i]),
    decreases list.len(),
{
    let members = store.reporting(list)->Ok_0;
    let before = store.reporting(list.drop_last())->Ok_0;
    members_are_the_series(store, list.drop_last());
    if i < list.len() - 1 {
        assert(members[i] == before[i]);
        usable_members_are_genuine(store, list.drop_last(), i);
        assert(list.drop_last()[i] == list[i]);
    } else {
        usability_is_genuineness(store, list.last(), last_usable(before));
    }
}

// ---- what the report says, in terms of the entries and the times ----

impl StoreView {
    /// What the entries up to a tree size resolve to, where they reach it: the governance in force
    /// there, if there is one.
    pub open spec fn in_force(self, config: ConfigView, tree_size: u64) -> Option<GovernanceView> {
        match chain(
            Seq::new(tree_size as nat, |i: int| self.entries[i].envelope),
            config,
        ) {
            Ok((state, _)) => state,
            Err(_) => None,
        }
    }
}

/// The governance at a size is resolved from exactly the entries below it: there is none where the
/// entries do not reach the size or bring no version in, and a refusal of the chain is passed on.
pub proof fn governance_is_resolved_from_the_entries_below(
    store: StoreView,
    config: ConfigView,
    tree_size: u64,
)
    requires
        store.entries.len() <= MAX_LEAVES,
    ensures
        tree_size <= store.entries.len() ==> match chain(
            Seq::new(tree_size as nat, |i: int| store.entries[i].envelope),
            config,
        ) {
            Ok((state, _)) => store.governed_at(config, tree_size) == Ok::<
                Option<GovernanceView>,
                Fault,
            >(state),
            Err(Fault::GovernanceChainUnresolvable { .. }) => store.governed_at(config, tree_size)
                == Ok::<Option<GovernanceView>, Fault>(None),
            Err(fault) => store.governed_at(config, tree_size) == Err::<
                Option<GovernanceView>,
                Fault,
            >(fault),
        },
        store.entries.len() < tree_size <= MAX_LEAVES ==> store.governed_at(config, tree_size)
            == Ok::<Option<GovernanceView>, Fault>(None),
        tree_size > MAX_LEAVES ==> store.governed_at(config, tree_size) == Err::<
            Option<GovernanceView>,
            Fault,
        >(Fault::IndexOverflow { what: "to_index"@ }),
{
    if tree_size <= store.entries.len() {
        assert(envelopes_of(store.entries).take(tree_size as int) =~= Seq::new(
            tree_size as nat,
            |i: int| store.entries[i].envelope,
        ));
    }
}

/// The series starts within one cadence of the epoch. With a first usable member below the floor,
/// whose time is readable and whose entries resolve, there is a frontier exactly where that time
/// is at or after the epoch of the genesis version and at most one cadence of that version later;
/// outside that window there is none, and the reason is that there is no valid start.
pub proof fn the_series_starts_within_one_cadence_of_the_epoch(
    store: StoreView,
    config: ConfigView,
    usable: Seq<CheckpointView>,
    floor: Option<u64>,
    time: u64,
    genesis: GovernanceView,
)
    requires
        store.entries.len() <= MAX_LEAVES,
        usable.len() > 0,
        usable[0].tree_size <= store.entries.len(),
        floor matches Some(size) ==> usable[0].tree_size < size,
        checkpoint_time_nanos(usable[0].checkpoint_time) == Ok::<u64, Fault>(time),
        chain(
            Seq::new(usable[0].tree_size as nat, |i: int| store.entries[i].envelope),
            config,
        ) matches Ok((_, versions)) && versions.len() > 0 && versions[0] == genesis,
    ensures
        genesis.cadence_epoch_nanos <= time <= genesis.cadence_epoch_nanos + genesis.cadence_nanos
            ==> match store.frontier(config, usable, floor) {
            Ok((reach, _)) => reach is Some,
            Err(_) => true,
        },
        genesis.cadence_epoch_nanos <= time <= genesis.cadence_epoch_nanos + genesis.cadence_nanos
            && usable.len() == 1 ==> (store.frontier(config, usable, floor) matches Ok((reach, _))
            && reach == Some(usable[0].tree_size)),
        !(genesis.cadence_epoch_nanos <= time <= genesis.cadence_epoch_nanos
            + genesis.cadence_nanos) ==> store.frontier(config, usable, floor) == Ok::<
            (Option<u64>, Option<FrontierStop>),
            Fault,
        >((None, Some(FrontierStop::NoValidStart))),
{
    let first = usable[0];
    let entries = Seq::new(first.tree_size as nat, |i: int| store.entries[i].envelope);
    let index = genesis.governing_manifest_entry_index;
    let versions = chain(entries, config)->Ok_0.1;
    governance_is_resolved_from_the_entries_below(store, config, first.tree_size);
    versions_form_one_chain(entries, config);
    a_version_is_in_force_right_after_its_manifest(entries, config, 0);
    let genesis_size = (index + 1) as u64;
    governance_is_resolved_from_the_entries_below(store, config, genesis_size);
    assert(entries.take(index + 1) =~= Seq::new(
        genesis_size as nat,
        |i: int| store.entries[i].envelope,
    ));
    assert(store.governed_at(config, genesis_size) == Ok::<Option<GovernanceView>, Fault>(
        Some(genesis),
    ));
    if store.starting(config, first) == Ok::<Result<u64, FrontierStop>, Fault>(Ok(time)) {
        assert(store.gap_free(config, usable, floor, 1));
        let count = extending_reaches_the_longest_run(store, config, usable, floor, 1, time);
    }
}

/// Whether a usable member follows on the one before it: it lies below the floor, its time is not
/// earlier, and it is at most the cadence later that is in force after the entries of the one
/// before.
pub open spec fn keeps_the_cadence(
    store: StoreView,
    config: ConfigView,
    before: CheckpointView,
    cp: CheckpointView,
    floor: Option<u64>,
) -> bool {
    &&& floor matches Some(size) ==> cp.tree_size < size
    &&& checkpoint_time_nanos(before.checkpoint_time) matches Ok(earlier)
    &&& checkpoint_time_nanos(cp.checkpoint_time) matches Ok(later)
    &&& store.in_force(config, before.tree_size) matches Some(governance)
    &&& earlier <= later <= earlier + governance.cadence_nanos
}

/// A frontier vouches for every step up to it and stops for a reason that holds: it is the size of
/// one of the usable members, every one up to it keeps the cadence after the one before, and the
/// next, where there is one, does not. The reason given is then a contradiction where the next
/// lies at or beyond the floor, a time that decreases, a governance that cannot be resolved, or a
/// cadence exceeded, each named with the size of the member before; and where there is no next, it
/// is the floor or none.
pub proof fn a_frontier_stops_for_the_reason_it_gives(
    store: StoreView,
    config: ConfigView,
    usable: Seq<CheckpointView>,
    floor: Option<u64>,
)
    requires
        store.entries.len() <= MAX_LEAVES,
        forall|i: int| 0 <= i < usable.len() ==> (#[trigger] usable[i]).tree_size
            <= store.entries.len(),
    ensures
        store.frontier(config, usable, floor) matches Ok((Some(frontier), stop)) ==> exists|at: int|
            {
                &&& 0 <= at < usable.len()
                &&& frontier == (#[trigger] usable[at]).tree_size
                &&& floor matches Some(size) ==> usable[0].tree_size < size
                &&& forall|k: int|
                    #![trigger usable[k]]
                    1 <= k <= at ==> keeps_the_cadence(
                        store,
                        config,
                        usable[k - 1],
                        usable[k],
                        floor,
                    )
                &&& at + 1 < usable.len() ==> !keeps_the_cadence(
                    store,
                    config,
                    usable[at],
                    usable[at + 1],
                    floor,
                ) && stops_for(store, config, usable[at], usable[at + 1], floor, stop)
                &&& at + 1 == usable.len() ==> match floor {
                    Some(size) => stop == Some(FrontierStop::Equivocation { at_tree_size: size }),
                    None => stop is None,
                }
            },
        (usable.len() == 0 || (floor matches Some(size) && size <= usable[0].tree_size))
            ==> match floor {
            Some(size) => store.frontier(config, usable, floor) == Ok::<
                (Option<u64>, Option<FrontierStop>),
                Fault,
            >((None, Some(FrontierStop::Equivocation { at_tree_size: size }))),
            None => store.frontier(config, usable, floor) == Ok::<
                (Option<u64>, Option<FrontierStop>),
                Fault,
            >((None, None)),
        },
{
    if let Ok((Some(frontier), stop)) = store.frontier(config, usable, floor) {
        let time = checkpoint_time_nanos(usable[0].checkpoint_time)->Ok_0;
        let count = extending_stops_for_its_reason(store, config, usable, floor, 1, time);
        assert(usable[count - 1].tree_size == frontier);
    }
}

/// Whether a stop is the reason that a member does not follow on the one before.
pub open spec fn stops_for(
    store: StoreView,
    config: ConfigView,
    before: CheckpointView,
    cp: CheckpointView,
    floor: Option<u64>,
    stop: Option<FrontierStop>,
) -> bool {
    let earlier = checkpoint_time_nanos(before.checkpoint_time);
    let later = checkpoint_time_nanos(cp.checkpoint_time);
    if floor matches Some(size) && size <= cp.tree_size {
        stop == Some(FrontierStop::Equivocation { at_tree_size: floor->0 })
    } else {
        &&& later is Ok
        &&& if later->Ok_0 < earlier->Ok_0 {
            stop == Some(FrontierStop::DecreasingTime { after_tree_size: before.tree_size })
        } else if store.in_force(config, before.tree_size) is None {
            stop == Some(FrontierStop::GovernanceUnresolvable { at_tree_size: before.tree_size })
        } else {
            stop == Some(FrontierStop::CadenceExceeded { after_tree_size: before.tree_size })
        }
    }
}

/// Extending a run stops for the reason it gives; where it stops is returned.
proof fn extending_stops_for_its_reason(
    store: StoreView,
    config: ConfigView,
    usable: Seq<CheckpointView>,
    floor: Option<u64>,
    next: nat,
    time: u64,
) -> (count: int)
    requires
        store.entries.len() <= MAX_LEAVES,
        forall|i: int| 0 <= i < usable.len() ==> (#[trigger] usable[i]).tree_size
            <= store.entries.len(),
        1 <= next <= usable.len(),
        checkpoint_time_nanos(usable[next - 1].checkpoint_time) == Ok::<u64, Fault>(time),
        store.extending(config, usable, floor, next, usable[next - 1].tree_size, time) matches Ok((
            reach,
            _,
        )) && reach is Some,
    ensures
        ({
            let (reach, stop) = store.extending(
                config,
                usable,
                floor,
                next,
                usable[next - 1].tree_size,
                time,
            )->Ok_0;
            &&& next <= count <= usable.len()
            &&& reach == Some(usable[count - 1].tree_size)
            &&& forall|k: int|
                #![trigger usable[k]]
                next <= k < count ==> keeps_the_cadence(
                    store,
                    config,
                    usable[k - 1],
                    usable[k],
                    floor,
                )
            &&& count < usable.len() ==> !keeps_the_cadence(
                store,
                config,
                usable[count - 1],
                usable[count],
                floor,
            ) && stops_for(store, config, usable[count - 1], usable[count], floor, stop)
            &&& count == usable.len() ==> match floor {
                Some(size) => stop == Some(FrontierStop::Equivocation { at_tree_size: size }),
                None => stop is None,
            }
        }),
    decreases usable.len() - next,
{
    if next < usable.len() {
        let before = usable[next - 1];
        let cp = usable[next as int];
        governance_is_resolved_from_the_entries_below(store, config, before.tree_size);
        extending_takes_what_follows_on(store, config, usable, floor, next, time);
        if store.follows_on(config, before, cp, floor) {
            let now = checkpoint_time_nanos(cp.checkpoint_time)->Ok_0;
            extending_stops_for_its_reason(store, config, usable, floor, next + 1, now)
        } else {
            next as int
        }
    } else {
        next as int
    }
}

/// There is no bound exactly where no usable member lies beyond the index and within the frontier.
pub proof fn no_bound_means_no_usable_member_within_the_frontier(report: SeriesReport, index: u64)
    ensures
        bound_of(report, index) is None <==> report.gap_free_frontier is None || forall|i: int|
            0 <= i < report.members.len() ==> !((#[trigger] report.members[i]).1
                == CheckpointState::SeriesUsable && index < report.members[i].0.tree_size
                <= report.gap_free_frontier->0),
        bound_of(report, index) matches Some(cp) ==> exists|i: int|
            0 <= i < report.members.len() && #[trigger] report.members[i] == (
                cp,
                CheckpointState::SeriesUsable,
            ) && index < cp.tree_size <= report.gap_free_frontier->0 && forall|j: int|
                0 <= j < i ==> !((#[trigger] report.members[j]).1 == CheckpointState::SeriesUsable
                    && index < report.members[j].0.tree_size <= report.gap_free_frontier->0),
{
    if let Some(frontier) = report.gap_free_frontier {
        a_bound_is_the_first(report.members, frontier, index);
    }
}

/// The first member that bounds an index is found wherever there is one.
proof fn a_bound_is_the_first(members: Seq<Member>, frontier: u64, index: u64)
    ensures
        match bound_from(members, frontier, index) {
            Some(cp) => exists|i: int|
                0 <= i < members.len() && #[trigger] members[i] == (
                    cp,
                    CheckpointState::SeriesUsable,
                ) && index < cp.tree_size <= frontier && forall|j: int|
                    0 <= j < i ==> !((#[trigger] members[j]).1 == CheckpointState::SeriesUsable
                        && index < members[j].0.tree_size <= frontier),
            None => forall|i: int|
                0 <= i < members.len() ==> !((#[trigger] members[i]).1
                    == CheckpointState::SeriesUsable && index < members[i].0.tree_size
                    <= frontier),
        },
    decreases members.len(),
{
    if members.len() > 0 {
        let rest = members.drop_first();
        a_bound_is_the_first(rest, frontier, index);
        assert forall|i: int| 0 < i < members.len() implies #[trigger] members[i] == rest[i
            - 1] by {}
        if members[0].1 == CheckpointState::SeriesUsable && index < members[0].0.tree_size
            <= frontier {
            assert(members[0] == (members[0].0, CheckpointState::SeriesUsable));
        } else if let Some(cp) = bound_from(rest, frontier, index) {
            let k = choose|i: int|
                0 <= i < rest.len() && #[trigger] rest[i] == (cp, CheckpointState::SeriesUsable)
                    && index < cp.tree_size <= frontier && forall|j: int|
                    0 <= j < i ==> !((#[trigger] rest[j]).1 == CheckpointState::SeriesUsable
                        && index < rest[j].0.tree_size <= frontier);
            assert(members[k + 1] == rest[k]);
            assert forall|j: int| 0 <= j < k + 1 implies !((#[trigger] members[j]).1
                == CheckpointState::SeriesUsable && index < members[j].0.tree_size
                <= frontier) by {
                if j > 0 {
                    assert(members[j] == rest[j - 1]);
                }
            }
        }
    }
}

/// The floor is the lowest size at which two authenticated checkpoints have different roots; there
/// is none exactly where any two of one size agree.
pub proof fn the_floor_is_the_lowest_contradiction(list: Seq<CheckpointView>)
    ensures
        match floor_of(list) {
            Some(floor) => {
                &&& exists|i: int, j: int|
                    0 <= i < list.len() && 0 <= j < list.len() && (#[trigger] list[i]).tree_size
                        == floor && (#[trigger] list[j]).tree_size == floor && list[i].root_hash
                        != list[j].root_hash
                &&& forall|i: int, j: int|
                    0 <= i < list.len() && 0 <= j < list.len() && (#[trigger] list[i]).tree_size
                        == (#[trigger] list[j]).tree_size && list[i].tree_size < floor
                        ==> list[i].root_hash == list[j].root_hash
            },
            None => forall|i: int, j: int|
                0 <= i < list.len() && 0 <= j < list.len() && (#[trigger] list[i]).tree_size == (
                #[trigger] list[j]).tree_size ==> list[i].root_hash == list[j].root_hash,
        },
{
    match floor_of(list) {
        Some(floor) => {
            assert(is_floor(list, floor));
            assert forall|i: int, j: int|
                0 <= i < list.len() && 0 <= j < list.len() && (#[trigger] list[i]).tree_size == (
                #[trigger] list[j]).tree_size && list[i].tree_size < floor implies list[i].root_hash
                == list[j].root_hash by {
                assert(!diverges_at(list, list[i].tree_size));
            }
        },
        None => {
            assert forall|i: int, j: int|
                0 <= i < list.len() && 0 <= j < list.len() && (#[trigger] list[i]).tree_size == (
                #[trigger] list[j]).tree_size implies list[i].root_hash == list[j].root_hash by {
                if list[i].root_hash != list[j].root_hash {
                    assert(diverges_at(list, list[i].tree_size));
                    a_divergence_has_a_floor(list, list[i].tree_size);
                }
            }
        },
    }
}

/// The frontier is computed over the usable members, all of them and in order.
pub proof fn the_usable_members_are_all_of_them(members: Seq<Member>)
    ensures
        usable_members(members) == members.filter(
            |member: Member| member.1 == CheckpointState::SeriesUsable,
        ).map_values(|member: Member| member.0),
    decreases members.len(),
{
    let is_usable = |member: Member| member.1 == CheckpointState::SeriesUsable;
    let checkpoint = |member: Member| member.0;
    reveal(Seq::filter);
    if members.len() > 0 {
        the_usable_members_are_all_of_them(members.drop_last());
        let before = members.drop_last().filter(is_usable);
        if is_usable(members.last()) {
            assert(before.push(members.last()).map_values(checkpoint) =~= before.map_values(
                checkpoint,
            ).push(members.last().0));
        }
    }
    assert(usable_members(members) =~= members.filter(is_usable).map_values(checkpoint));
}

/// What the report is made of: every recorded checkpoint in its place, the lowest contradiction
/// among everything authenticated, and the frontier of the usable members below it.
pub proof fn a_report_is_of_everything_recorded(store: StoreView, config: ConfigView)
    ensures
        store.series(config) matches Ok(report) ==> {
            &&& report.members.len() == store.checkpoints.len()
            &&& forall|i: int|
                0 <= i < report.members.len() ==> (#[trigger] report.members[i]).0
                    == store.checkpoints[i]
            &&& report.equivocation_floor == floor_of(
                store.checkpoints + Seq::new(
                    store.anchors.len(),
                    |i: int| store.anchors[i].1,
                ) + store.superseded,
            )
            &&& store.frontier(
                config,
                report.members.filter(
                    |member: Member| member.1 == CheckpointState::SeriesUsable,
                ).map_values(|member: Member| member.0),
                report.equivocation_floor,
            ) == Ok::<(Option<u64>, Option<FrontierStop>), Fault>(
                (report.gap_free_frontier, report.frontier_stop),
            )
        },
{
    members_are_the_series(store, store.checkpoints);
    if let Ok(report) = store.series(config) {
        the_usable_members_are_all_of_them(report.members);
        assert(anchor_checkpoints(store.anchors) =~= Seq::new(
            store.anchors.len(),
            |i: int| store.anchors[i].1,
        ));
    }
}

/// A member is usable only where the entries reach it and its root is the root over them; a root
/// that is no hash, and one that the entries do not reach, is never usable, and neither keeps the
/// report from being made: only lost tree material does.
pub proof fn a_member_is_usable_only_on_its_own_entries(
    store: StoreView,
    list: Seq<CheckpointView>,
    i: int,
)
    requires
        store.valid(),
        0 <= i < list.len(),
    ensures
        match store.reporting(list) {
            Ok(members) => members[i].1 == CheckpointState::SeriesUsable ==> {
                &&& list[i].tree_size <= store.entries.len()
                &&& hash_of_text(list[i].root_hash) == Some(
                    root_of(
                        Seq::new(
                            list[i].tree_size as nat,
                            |k: int| leaf_of(store.entries[k].envelope),
                        ),
                    ),
                )
            },
            Err(fault) => fault is TreeMaterialMissing || fault is TreeMaterialCorrupt,
        },
{
    match store.reporting(list) {
        Ok(members) => {
            if members[i].1 == CheckpointState::SeriesUsable {
                usable_members_are_genuine(store, list, i);
                assert(leaves_of(store.entries).take(list[i].tree_size as int) =~= Seq::new(
                    list[i].tree_size as nat,
                    |k: int| leaf_of(store.entries[k].envelope),
                ));
            }
        },
        Err(_) => {
            only_lost_material_keeps_a_report(store, list);
        },
    }
}

/// Only a fault of the tree material keeps a report from being made.
proof fn only_lost_material_keeps_a_report(store: StoreView, list: Seq<CheckpointView>)
    ensures
        store.reporting(list) matches Err(fault) ==> fault is TreeMaterialMissing
            || fault is TreeMaterialCorrupt,
    decreases list.len(),
{
    if list.len() > 0 {
        only_lost_material_keeps_a_report(store, list.drop_last());
    }
}

/// A first member is usable exactly where it is a checkpoint of this log, in a store that lost no
/// node: nothing before it can stand in its way.
pub proof fn a_first_genuine_member_is_usable(store: StoreView, first: CheckpointView)
    requires
        store.valid(),
        store.tree.held == complete_nodes(store.entries.len()),
        first.tree_size <= MAX_LEAVES,
    ensures
        store.reporting(seq![first]) == Ok::<Seq<Member>, Fault>(
            seq![
                (
                    first,
                    if first.tree_size <= store.entries.len() && hash_of_text(first.root_hash)
                        == Some(root_of(leaves_of(store.entries).take(first.tree_size as int))) {
                        CheckpointState::SeriesUsable
                    } else {
                        CheckpointState::Authenticated
                    },
                ),
            ],
        ),
{
    let list = seq![first];
    assert(list.drop_last() =~= Seq::<CheckpointView>::empty());
    reveal_with_fuel(StoreView::reporting, 2);
    if first.tree_size <= store.entries.len() {
        whole_material_has_no_gap(store.tree, 0, first.tree_size as nat);
        assert(store.tree.leaves.subrange(0, first.tree_size as int) =~= leaves_of(
            store.entries,
        ).take(first.tree_size as int));
        if first.tree_size == 0 {
            assert(leaves_of(store.entries).take(0) =~= Seq::<Seq<u8>>::empty());
        }
    }
    let state = if first.tree_size <= store.entries.len() && hash_of_text(first.root_hash) == Some(
        root_of(leaves_of(store.entries).take(first.tree_size as int)),
    ) {
        CheckpointState::SeriesUsable
    } else {
        CheckpointState::Authenticated
    };
    assert(Seq::<Member>::empty().push((first, state)) =~= seq![(first, state)]);
}

/// A frontier is owed: where the entries resolve without a refusal and every usable member is
/// within them and has a readable time, how far the series is free of gaps is always told.
pub proof fn a_frontier_is_owed_where_times_are_readable(
    store: StoreView,
    config: ConfigView,
    usable: Seq<CheckpointView>,
    floor: Option<u64>,
)
    requires
        store.entries.len() <= MAX_LEAVES,
        chain(Seq::new(store.entries.len(), |i: int| store.entries[i].envelope), config) is Ok,
        forall|i: int|
            0 <= i < usable.len() ==> (#[trigger] usable[i]).tree_size <= store.entries.len()
                && checkpoint_time_nanos(usable[i].checkpoint_time) is Ok,
    ensures
        store.frontier(config, usable, floor) is Ok,
{
    if usable.len() > 0 {
        let first = usable[0];
        assert forall|size: u64| size <= store.entries.len() implies (#[trigger] store.governed_at(
            config,
            size,
        )) is Ok by {
            resolution_reaches_every_size(store, config, size);
        }
        governance_is_resolved_from_the_entries_below(store, config, first.tree_size);
        let entries = Seq::new(first.tree_size as nat, |i: int| store.entries[i].envelope);
        versions_form_one_chain(entries, config);
        if let Ok(Some(governance)) = store.governed_at(config, first.tree_size) {
            assert(governance.genesis_entry_index < first.tree_size);
        }
        let time = checkpoint_time_nanos(first.checkpoint_time)->Ok_0;
        extending_is_owed(store, config, usable, floor, 1, first.tree_size, time);
    }
}

/// Where all entries resolve without a refusal, so do those below every size.
proof fn resolution_reaches_every_size(store: StoreView, config: ConfigView, size: u64)
    requires
        store.entries.len() <= MAX_LEAVES,
        chain(Seq::new(store.entries.len(), |i: int| store.entries[i].envelope), config) is Ok,
        size <= store.entries.len(),
    ensures
        store.governed_at(config, size) is Ok,
{
    let all = Seq::new(store.entries.len(), |i: int| store.entries[i].envelope);
    let some = Seq::new(size as nat, |i: int| store.entries[i].envelope);
    governance_is_resolved_from_the_entries_below(store, config, size);
    if chain(some, config) is Err {
        assert(all =~= some + all.skip(size as int));
        a_refusal_of_the_chain_stands(some, all.skip(size as int), config);
    }
}

/// Extending a run never fails where times and governance are readable.
proof fn extending_is_owed(
    store: StoreView,
    config: ConfigView,
    usable: Seq<CheckpointView>,
    floor: Option<u64>,
    next: nat,
    frontier: u64,
    time: u64,
)
    requires
        forall|size: u64|
            size <= store.entries.len() ==> (#[trigger] store.governed_at(config, size)) is Ok,
        forall|i: int|
            0 <= i < usable.len() ==> (#[trigger] usable[i]).tree_size <= store.entries.len()
                && checkpoint_time_nanos(usable[i].checkpoint_time) is Ok,
    ensures
        store.extending(config, usable, floor, next, frontier, time) is Ok,
    decreases usable.len() - next,
{
    if 0 < next < usable.len() {
        let cp = usable[next as int];
        let now = checkpoint_time_nanos(cp.checkpoint_time)->Ok_0;
        assert(store.governed_at(config, usable[next - 1].tree_size) is Ok);
        extending_is_owed(store, config, usable, floor, next + 1, cp.tree_size, now);
    }
}

/// Whether a checkpoint is usable is told, and not refused, wherever its size can be addressed, its
/// root is a hash text and no node is lost: one that the entries do not reach is not, one whose
/// root is not the root over the entries is not, and one with that root is, unless a usable one
/// before it stands in its way.
pub proof fn usability_is_told_of_every_readable_checkpoint(
    store: StoreView,
    cp: CheckpointView,
    pred: Option<CheckpointView>,
)
    requires
        store.valid(),
        store.tree.held == complete_nodes(store.entries.len()),
    ensures
        cp.tree_size > MAX_LEAVES ==> store.usable(cp, pred) == Err::<bool, Fault>(
            Fault::IndexOverflow { what: "to_index"@ },
        ),
        store.entries.len() < cp.tree_size <= MAX_LEAVES ==> store.usable(cp, pred) == Ok::<
            bool,
            Fault,
        >(false),
        cp.tree_size <= store.entries.len() ==> match hash_of_text(cp.root_hash) {
            None => store.usable(cp, pred) == Err::<bool, Fault>(Fault::Ahl)
                && store.root_agrees(cp) == Err::<bool, Fault>(Fault::Ahl),
            Some(claimed) => {
                let root = root_of(
                    Seq::new(
                        cp.tree_size as nat,
                        |k: int| leaf_of(store.entries[k].envelope),
                    ),
                );
                &&& store.root_agrees(cp) == Ok::<bool, Fault>(claimed == root)
                &&& claimed != root ==> store.usable(cp, pred) == Ok::<bool, Fault>(false)
                &&& claimed == root ==> store.usable(cp, pred) == match pred {
                    None => Ok::<bool, Fault>(true),
                    Some(before) => consistency_judged(
                        before,
                        cp,
                        store.link(before.tree_size, cp.tree_size),
                    ),
                }
            },
        },
{
    if cp.tree_size <= store.entries.len() {
        every_held_root_is_opened(store, cp.tree_size as nat);
    }
}

/// Each member is judged after the last usable one before it: reporting one more checkpoint keeps
/// every state told so far, and adds the state of the new one judged against that member.
pub proof fn a_member_is_judged_after_the_last_usable_one(
    store: StoreView,
    list: Seq<CheckpointView>,
    cp: CheckpointView,
)
    requires
        store.reporting(list) is Ok,
    ensures
        ({
            let members = store.reporting(list)->Ok_0;
            let pred = last_usable(members);
            &&& match pred {
                Some(before) => exists|i: int|
                    0 <= i < members.len() && #[trigger] members[i] == (
                        before,
                        CheckpointState::SeriesUsable,
                    ) && forall|j: int|
                        i < j < members.len() ==> (#[trigger] members[j]).1
                            != CheckpointState::SeriesUsable,
                None => forall|i: int|
                    0 <= i < members.len() ==> (#[trigger] members[i]).1
                        != CheckpointState::SeriesUsable,
            }
            &&& match store.usable(cp, pred) {
                Ok(usable) => store.reporting(list.push(cp)) == Ok::<Seq<Member>, Fault>(
                    members.push(
                        (
                            cp,
                            if usable {
                                CheckpointState::SeriesUsable
                            } else {
                                CheckpointState::Authenticated
                            },
                        ),
                    ),
                ),
                Err(fault) => store.reporting(list.push(cp)) == if fault is TreeMaterialMissing
                    || fault is TreeMaterialCorrupt {
                    Err::<Seq<Member>, Fault>(fault)
                } else {
                    Ok::<Seq<Member>, Fault>(members.push((cp, CheckpointState::Authenticated)))
                },
            }
        }),
{
    assert(list.push(cp).drop_last() =~= list);
    assert(list.push(cp).last() == cp);
    the_last_usable_is_found(store.reporting(list)->Ok_0);
}

/// The last usable member is found wherever there is one.
proof fn the_last_usable_is_found(members: Seq<Member>)
    ensures
        match last_usable(members) {
            Some(before) => exists|i: int|
                0 <= i < members.len() && #[trigger] members[i] == (
                    before,
                    CheckpointState::SeriesUsable,
                ) && forall|j: int|
                    i < j < members.len() ==> (#[trigger] members[j]).1
                        != CheckpointState::SeriesUsable,
            None => forall|i: int|
                0 <= i < members.len() ==> (#[trigger] members[i]).1
                    != CheckpointState::SeriesUsable,
        },
    decreases members.len(),
{
    if members.len() > 0 {
        let rest = members.drop_last();
        let at = members.len() - 1;
        the_last_usable_is_found(rest);
        assert forall|i: int| 0 <= i < rest.len() implies #[trigger] members[i] == rest[i] by {}
        if members.last().1 == CheckpointState::SeriesUsable {
            assert(members[at] == (members.last().0, CheckpointState::SeriesUsable));
        } else if let Some(before) = last_usable(rest) {
            let i = choose|i: int|
                0 <= i < rest.len() && #[trigger] rest[i] == (before, CheckpointState::SeriesUsable)
                    && forall|j: int|
                    i < j < rest.len() ==> (#[trigger] rest[j]).1 != CheckpointState::SeriesUsable;
            assert(members[i] == (before, CheckpointState::SeriesUsable));
            assert forall|j: int| i < j < members.len() implies (#[trigger] members[j]).1
                != CheckpointState::SeriesUsable by {
                if j < at {
                    assert(members[j] == rest[j]);
                }
            }
        }
    }
}

/// A fault of the tree material is passed on and no other is: lost and malformed nodes are this
/// deployment's, and everything else is the checkpoint's own.
pub proof fn only_faults_of_the_material_are_passed_on(fault: Fault)
    ensures
        is_material_fault(fault) <==> match fault {
            Fault::TreeMaterialMissing { .. } => true,
            Fault::TreeMaterialCorrupt { .. } => true,
            _ => false,
        },
{
}

/// The sizes named as divergences are exactly those at which two authenticated checkpoints have
/// different roots, each once.
pub proof fn every_contradicted_size_is_named(sizes: Seq<u64>, list: Seq<CheckpointView>)
    requires
        names_divergences(sizes, list),
    ensures
        forall|i: int, j: int|
            0 <= i < list.len() && 0 <= j < list.len() && (#[trigger] list[i]).tree_size == (
            #[trigger] list[j]).tree_size && list[i].root_hash != list[j].root_hash
                ==> sizes.contains(list[i].tree_size),
        forall|size: u64| #[trigger]
            sizes.contains(size) ==> exists|i: int, j: int|
                0 <= i < list.len() && 0 <= j < list.len() && (#[trigger] list[i]).tree_size == size
                    && (#[trigger] list[j]).tree_size == size && list[i].root_hash
                    != list[j].root_hash,
        forall|j: int, k: int|
            0 <= j < k < sizes.len() ==> #[trigger] sizes[j] < #[trigger] sizes[k],
{
    assert forall|i: int, j: int|
        0 <= i < list.len() && 0 <= j < list.len() && (#[trigger] list[i]).tree_size == (
        #[trigger] list[j]).tree_size && list[i].root_hash
            != list[j].root_hash implies sizes.contains(list[i].tree_size) by {
        assert(diverges_at(list, list[i].tree_size));
    }
    assert forall|size: u64| #[trigger] sizes.contains(size) implies exists|i: int, j: int|
        0 <= i < list.len() && 0 <= j < list.len() && (#[trigger] list[i]).tree_size == size && (
        #[trigger] list[j]).tree_size == size && list[i].root_hash != list[j].root_hash by {
        assert(diverges_at(list, size));
    }
}

/// A report is owed: it is made wherever every member is told usable or not and the frontier of
/// the usable ones is told, and refused only for what refuses one of these.
pub proof fn a_report_is_owed(store: StoreView, config: ConfigView)
    ensures
        match store.reporting(store.checkpoints) {
            Err(fault) => store.series(config) == Err::<SeriesReport, Fault>(fault),
            Ok(members) => match store.frontier(
                config,
                members.filter(
                    |member: Member| member.1 == CheckpointState::SeriesUsable,
                ).map_values(|member: Member| member.0),
                floor_of(store.authenticated()),
            ) {
                Err(fault) => store.series(config) == Err::<SeriesReport, Fault>(fault),
                Ok((reach, stop)) => store.series(config) == Ok::<SeriesReport, Fault>(
                    SeriesReport {
                        members,
                        gap_free_frontier: reach,
                        frontier_stop: stop,
                        equivocation_floor: floor_of(store.authenticated()),
                    },
                ),
            },
        },
{
    if let Ok(members) = store.reporting(store.checkpoints) {
        the_usable_members_are_all_of_them(members);
    }
}

/// A first usable member without a governance starts nothing: where the entries below it resolve
/// to no version, there is no frontier, and that is the reason.
pub proof fn a_series_without_governance_does_not_start(
    store: StoreView,
    config: ConfigView,
    usable: Seq<CheckpointView>,
    floor: Option<u64>,
)
    requires
        store.entries.len() <= MAX_LEAVES,
        usable.len() > 0,
        usable[0].tree_size <= store.entries.len(),
        floor matches Some(size) ==> usable[0].tree_size < size,
        chain(
            Seq::new(usable[0].tree_size as nat, |i: int| store.entries[i].envelope),
            config,
        ) matches Ok((state, _)) && state is None,
    ensures
        store.frontier(config, usable, floor) == Ok::<(Option<u64>, Option<FrontierStop>), Fault>(
            (
                None,
                Some(FrontierStop::GovernanceUnresolvable { at_tree_size: usable[0].tree_size }),
            ),
        ),
{
    governance_is_resolved_from_the_entries_below(store, config, usable[0].tree_size);
}

} // verus!
