//! Inclusion and consistency proofs over the stored tree material.

use vstd::prelude::*;

use crate::error::{gives, refuses, Fault, MirrorError, MirrorResult};
use crate::geometry::{
    block_level, hashes_view, is_block, level_of_width, of_hash_length, root_of, span_root,
    span_root_splits, span_roots, split, split_is_largest_power_below, split_point, width,
    width_is_monotone,
};
use crate::primitives::{a_node_tells_its_children, collides, node_hash, node_octets};
use crate::tree::{
    complete_nodes, missing, whole_material_has_no_gap, width_divides, TreeMaterial, TreeView,
};

verus! {

/// That a leaf sits at an index of a tree: the sibling hashes from the leaf to the root.
#[derive(Debug)]
pub struct InclusionProof {
    /// The index of the leaf.
    pub leaf_index: u64,
    /// The size of the tree.
    pub tree_size: u64,
    /// The sibling hashes, the one beside the leaf first.
    pub path: Vec<[u8; 32]>,
}

/// That a tree is a prefix of a larger one: the subtree hashes both roots are made of.
#[derive(Debug)]
pub struct ConsistencyProof {
    /// The size of the older tree.
    pub from_size: u64,
    /// The size of the newer tree.
    pub to_size: u64,
    /// The subtree hashes.
    pub path: Vec<[u8; 32]>,
}

/// What opening a root or a proof read out of the store.
#[derive(Debug, Clone, Copy, PartialEq, Eq)]
pub struct TreeReadCost {
    /// Stored 32-octet nodes read, leaf hashes and subtree roots alike.
    pub tree_nodes: u64,
}

/// A count that sticks at the largest `u64`.
pub open spec fn saturated(count: int) -> int {
    if count > u64::MAX {
        u64::MAX as int
    } else {
        count
    }
}

/// `count` nodes of 32 octets each.
pub(crate) fn node_bytes(count: u64) -> (bytes: u64)
    ensures
        bytes == saturated(32 * count),
{
    match count.checked_mul(32) {
        Some(bytes) => bytes,
        None => u64::MAX,
    }
}

impl TreeReadCost {
    /// Octets read: 32 per node, sticking at the largest `u64`.
    pub fn total_bytes(&self) -> (bytes: u64)
        ensures
            bytes == saturated(32 * self.tree_nodes),
    {
        node_bytes(self.tree_nodes)
    }
}

/// How many stored nodes opening a span reads: one for a whole block, else those of its parts.
pub open spec fn reads(offset: nat, size: nat) -> nat
    decreases size,
{
    if size <= 1 {
        size
    } else if is_block(offset, size) {
        1
    } else {
        proof {
            split_is_largest_power_below(size);
        }
        reads(offset, split(size)) + reads(offset + split(size), (size - split(size)) as nat)
    }
}

/// How many stored nodes opening a list of spans reads.
pub open spec fn reads_over(spans: Seq<(nat, nat)>) -> nat
    decreases spans.len(),
{
    if spans.len() == 0 {
        0
    } else {
        reads_over(spans.drop_last()) + reads(spans.last().0, spans.last().1)
    }
}

/// Opening a span reads at most one node per leaf.
proof fn reads_are_bounded(offset: nat, size: nat)
    ensures
        reads(offset, size) <= size,
    decreases size,
{
    if size > 1 && !is_block(offset, size) {
        split_is_largest_power_below(size);
        reads_are_bounded(offset, split(size));
        reads_are_bounded(offset + split(size), (size - split(size)) as nat);
    }
}

/// How many stored nodes opening `size` leaves from `offset` on reads.
pub fn count_reads(offset: u64, size: u64) -> (count: u64)
    requires
        offset + size <= u64::MAX,
    ensures
        count == reads(offset as nat, size as nat),
        count <= size,
    decreases size,
{
    proof {
        reads_are_bounded(offset as nat, size as nat);
    }
    if size <= 1 {
        return size;
    }
    match block_level(offset, size) {
        Some(_) => 1,
        None => {
            let k: u64 = split_point(size);
            count_reads(offset, k) + count_reads(offset + k, size - k)
        },
    }
}

/// A list of spans as natural numbers.
pub open spec fn spans_view(spans: Seq<(u64, u64)>) -> Seq<(nat, nat)> {
    Seq::new(spans.len(), |i: int| (spans[i].0 as nat, spans[i].1 as nat))
}

// ---- inclusion ----

/// The sibling spans of the leaf at `index` among `size` leaves from `offset` on, the widest
/// first: at each split the part that the leaf is not in.
pub open spec fn sibling_spans(index: nat, offset: nat, size: nat) -> Seq<(nat, nat)>
    decreases size,
{
    if size <= 1 {
        Seq::empty()
    } else {
        proof {
            split_is_largest_power_below(size);
        }
        let k = split(size);
        if index < k {
            seq![(offset + k, (size - k) as nat)] + sibling_spans(index, offset, k)
        } else {
            seq![(offset, k)] + sibling_spans((index - k) as nat, offset + k, (size - k) as nat)
        }
    }
}

/// The inclusion path of the leaf at `index` in the tree over `leaves`: the roots over its
/// sibling spans, the one beside the leaf first.
pub open spec fn inclusion_path(leaves: Seq<Seq<u8>>, index: nat) -> Seq<Seq<u8>> {
    span_roots(leaves, sibling_spans(index, 0, leaves.len())).reverse()
}

/// The root a path leads to from the leaf at `index` among `size` leaves.
pub open spec fn path_root(leaf: Seq<u8>, index: nat, size: nat, path: Seq<Seq<u8>>) -> Seq<u8>
    decreases size,
{
    if size <= 1 {
        leaf
    } else {
        proof {
            split_is_largest_power_below(size);
        }
        let k = split(size);
        if index < k {
            node_hash(path_root(leaf, index, k, path.drop_last()), path.last())
        } else {
            node_hash(
                path.last(),
                path_root(leaf, (index - k) as nat, (size - k) as nat, path.drop_last()),
            )
        }
    }
}

/// Whether an inclusion proof opens a root; `None` where it is structurally impossible, that
/// is, where the leaf is outside the tree or the path is too long. A path that is too short
/// opens nothing.
pub open spec fn inclusion_verdict(
    leaf: Seq<u8>,
    index: nat,
    size: nat,
    path: Seq<Seq<u8>>,
    root: Seq<u8>,
) -> Option<bool> {
    let depth = sibling_spans(index, 0, size).len();
    if index >= size || path.len() > depth {
        None
    } else {
        Some(path.len() == depth && path_root(leaf, index, size, path) == root)
    }
}

/// `atl_core::core::merkle::verify_inclusion` on a leaf hash, a proof and a root.
///
/// It folds the path into the leaf hash, at each split on the side the leaf is not on, and
/// compares the outcome with the root.
#[verifier::external_body]
pub(crate) fn verify_inclusion(
    leaf: &[u8; 32],
    leaf_index: u64,
    tree_size: u64,
    path: &Vec<[u8; 32]>,
    root: &[u8; 32],
) -> (verdict: Result<bool, atl_core::AtlError>)
    ensures
        match verdict {
            Ok(opens) => inclusion_verdict(
                leaf@,
                leaf_index as nat,
                tree_size as nat,
                hashes_view(path@),
                root@,
            ) == Some(opens),
            Err(_) => inclusion_verdict(
                leaf@,
                leaf_index as nat,
                tree_size as nat,
                hashes_view(path@),
                root@,
            ) is None,
        },
{
    let path = path.clone();
    let proof = atl_core::core::merkle::InclusionProof { leaf_index, tree_size, path };
    atl_core::core::merkle::verify_inclusion(leaf, &proof, root)
}

/// The path from a leaf leads to the root over the span the siblings were taken from.
proof fn sibling_roots_lead_to_the_root(leaves: Seq<Seq<u8>>, index: nat, offset: nat, size: nat)
    requires
        index < size,
        offset + size <= leaves.len(),
    ensures
        path_root(
            leaves[(offset + index) as int],
            index,
            size,
            span_roots(leaves, sibling_spans(index, offset, size)).reverse(),
        ) == span_root(leaves, offset, size),
    decreases size,
{
    if size > 1 {
        split_is_largest_power_below(size);
        let k = split(size);
        let spans = sibling_spans(index, offset, size);
        let path = span_roots(leaves, spans).reverse();
        span_root_splits(leaves, offset, size);
        if index < k {
            let rest = sibling_spans(index, offset, k);
            assert(spans =~= seq![(offset + k, (size - k) as nat)] + rest);
            assert(path.drop_last() =~= span_roots(leaves, rest).reverse());
            assert(path.last() == span_root(leaves, offset + k, (size - k) as nat));
            sibling_roots_lead_to_the_root(leaves, index, offset, k);
        } else {
            let rest = sibling_spans((index - k) as nat, offset + k, (size - k) as nat);
            assert(spans =~= seq![(offset, k)] + rest);
            assert(path.drop_last() =~= span_roots(leaves, rest).reverse());
            assert(path.last() == span_root(leaves, offset, k));
            sibling_roots_lead_to_the_root(
                leaves,
                (index - k) as nat,
                offset + k,
                (size - k) as nat,
            );
        }
    }
}

/// The inclusion path of a leaf opens the root over the leaves, and no other root.
pub proof fn an_inclusion_path_opens_the_root(leaves: Seq<Seq<u8>>, index: nat, root: Seq<u8>)
    requires
        index < leaves.len(),
    ensures
        inclusion_verdict(
            leaves[index as int],
            index,
            leaves.len(),
            inclusion_path(leaves, index),
            root,
        ) == Some(root == root_of(leaves)),
{
    sibling_roots_lead_to_the_root(leaves, index, 0, leaves.len());
    assert(leaves.subrange(0, leaves.len() as int) =~= leaves);
}

/// `atl_core::core::merkle::generate_inclusion_proof` over the stored nodes, within the leaves
/// held: the inclusion path wherever the leaf is in the tree, else an error.
#[verifier::external_body]
fn generate_inclusion_proof(tree: &TreeMaterial, leaf_index: u64, tree_size: u64) -> (path: Result<
    Vec<[u8; 32]>,
    atl_core::AtlError,
>)
    requires
        tree.wf(),
        tree_size <= tree@.leaves.len(),
    ensures
        match path {
            Ok(hashes) => leaf_index < tree_size && hashes_view(hashes@) == inclusion_path(
                tree@.leaves.take(tree_size as int),
                leaf_index as nat,
            ),
            Err(_) => leaf_index >= tree_size,
        },
{
    atl_core::core::merkle::generate_inclusion_proof(
        leaf_index,
        tree_size,
        |level, index| tree.node(level, index),
    ).map(|proof| proof.path)
}

// ---- consistency ----

/// The spans of the consistency proof between the first `from` and all of `size` leaves from
/// `offset` on: what the two trees have in common below the last split between them, then the
/// part beyond each split. `known` tells whether the verifier holds the root over the first
/// `from` leaves of this span.
pub open spec fn consistency_spans(from: nat, offset: nat, size: nat, known: bool) -> Seq<
    (nat, nat),
>
    decreases size,
{
    if from == size {
        if known {
            Seq::empty()
        } else {
            seq![(offset, size)]
        }
    } else if from == 0 || from > size {
        Seq::empty()
    } else {
        proof {
            split_is_largest_power_below(size);
        }
        let k = split(size);
        if from <= k {
            consistency_spans(from, offset, k, known).push((offset + k, (size - k) as nat))
        } else {
            consistency_spans((from - k) as nat, offset + k, (size - k) as nat, false).push(
                (offset, k),
            )
        }
    }
}

/// The consistency path between the tree over the first `from` leaves and the tree over all.
pub open spec fn consistency_path(leaves: Seq<Seq<u8>>, from: nat) -> Seq<Seq<u8>> {
    span_roots(leaves, consistency_spans(from, 0, leaves.len(), true))
}

/// `atl_core::core::merkle::generate_consistency_proof` over the stored nodes, within the
/// leaves held: the consistency path, or an error where the older size is the larger one.
#[verifier::external_body]
fn generate_consistency_proof(tree: &TreeMaterial, from_size: u64, to_size: u64) -> (path: Result<
    Vec<[u8; 32]>,
    atl_core::AtlError,
>)
    requires
        tree.wf(),
        from_size > to_size || to_size <= tree@.leaves.len(),
    ensures
        match path {
            Ok(hashes) => from_size <= to_size && hashes_view(hashes@) == consistency_path(
                tree@.leaves.take(to_size as int),
                from_size as nat,
            ),
            Err(_) => from_size > to_size,
        },
{
    atl_core::core::merkle::generate_consistency_proof(
        from_size,
        to_size,
        |level, index| tree.node(level, index),
    ).map(|proof| proof.path)
}

/// Whether a consistency proof links an older root to a newer one; `None` where it is
/// structurally impossible.
pub uninterp spec fn consistency_verdict(
    from: nat,
    to: nat,
    path: Seq<Seq<u8>>,
    old_root: Seq<u8>,
    new_root: Seq<u8>,
) -> Option<bool>;

/// `atl_core::core::merkle::verify_consistency`, named by [`consistency_verdict`].
///
/// Two trees of one size with an empty path are consistent exactly where their roots are equal,
/// and with an empty path every tree extends the empty one.
/// The path that was generated over some leaves links the older root over them to the newer
/// root over them, and to no other root.
#[verifier::external_body]
pub(crate) fn verify_consistency(
    from_size: u64,
    to_size: u64,
    path: &Vec<[u8; 32]>,
    old_root: &[u8; 32],
    new_root: &[u8; 32],
) -> (verdict: Result<bool, atl_core::AtlError>)
    ensures
        match verdict {
            Ok(links) => consistency_verdict(
                from_size as nat,
                to_size as nat,
                hashes_view(path@),
                old_root@,
                new_root@,
            ) == Some(links),
            Err(_) => consistency_verdict(
                from_size as nat,
                to_size as nat,
                hashes_view(path@),
                old_root@,
                new_root@,
            ) is None,
        },
        from_size == to_size && path@.len() == 0 ==> verdict is Ok && verdict->Ok_0 == (old_root@
            == new_root@),
        from_size == 0 && to_size > 0 && path@.len() == 0 ==> verdict is Ok && verdict->Ok_0,
        forall|leaves: Seq<Seq<u8>>|
            #![trigger consistency_path(leaves, from_size as nat)]
            leaves.len() == to_size && 0 < from_size <= to_size && hashes_view(path@)
                == consistency_path(leaves, from_size as nat) && old_root@ == root_of(
                leaves.take(from_size as int),
            ) ==> verdict is Ok && verdict->Ok_0 == (new_root@ == root_of(leaves)),
{
    let path = path.clone();
    let proof = atl_core::core::merkle::ConsistencyProof { from_size, to_size, path };
    atl_core::core::merkle::verify_consistency(&proof, old_root, new_root)
}

// ---- opening proofs from stored nodes ----

/// Whether every span lies within the first `count` leaves.
pub open spec fn spans_within(spans: Seq<(nat, nat)>, count: nat) -> bool {
    forall|i: int| 0 <= i < spans.len() ==> (#[trigger] spans[i]).0 + spans[i].1 <= count
}

/// The sibling spans of a leaf, the widest first.
pub fn list_sibling_spans(index: u64, tree_size: u64) -> (spans: Vec<(u64, u64)>)
    requires
        index < tree_size,
    ensures
        spans_view(spans@) == sibling_spans(index as nat, 0, tree_size as nat),
        spans_within(spans_view(spans@), tree_size as nat),
{
    let mut spans: Vec<(u64, u64)> = Vec::new();
    let mut at: u64 = index;
    let mut offset: u64 = 0;
    let mut size: u64 = tree_size;
    while size > 1
        invariant
            at < size,
            offset + size <= tree_size,
            spans_within(spans_view(spans@), tree_size as nat),
            sibling_spans(index as nat, 0, tree_size as nat) == spans_view(spans@) + sibling_spans(
                at as nat,
                offset as nat,
                size as nat,
            ),
        decreases size,
    {
        let k: u64 = split_point(size);
        let ghost listed = spans_view(spans@);
        let ghost left = sibling_spans(at as nat, offset as nat, size as nat);
        if at < k {
            spans.push((offset + k, size - k));
            proof {
                assert(spans_view(spans@) =~= listed.push(
                    ((offset + k) as nat, (size - k) as nat),
                ));
                assert(listed + left =~= spans_view(spans@) + sibling_spans(
                    at as nat,
                    offset as nat,
                    k as nat,
                ));
            }
            size = k;
        } else {
            spans.push((offset, k));
            proof {
                assert(spans_view(spans@) =~= listed.push((offset as nat, k as nat)));
                assert(listed + left =~= spans_view(spans@) + sibling_spans(
                    (at - k) as nat,
                    (offset + k) as nat,
                    (size - k) as nat,
                ));
            }
            at = at - k;
            offset = offset + k;
            size = size - k;
        }
    }
    assert(spans_view(spans@) + sibling_spans(at as nat, offset as nat, size as nat) =~= spans_view(
        spans@,
    ));
    spans
}

/// The spans of a consistency proof, in path order.
pub fn list_consistency_spans(from: u64, offset: u64, size: u64, known: bool) -> (spans: Vec<
    (u64, u64),
>)
    requires
        from <= size,
        offset + size <= u64::MAX,
    ensures
        spans_view(spans@) == consistency_spans(from as nat, offset as nat, size as nat, known),
        spans_within(spans_view(spans@), (offset + size) as nat),
    decreases size,
{
    let mut spans: Vec<(u64, u64)> = Vec::new();
    if from == size {
        if !known {
            spans.push((offset, size));
            assert(spans_view(spans@) =~= seq![(offset as nat, size as nat)]);
        } else {
            assert(spans_view(spans@) =~= Seq::<(nat, nat)>::empty());
        }
        return spans;
    }
    if from == 0 {
        assert(spans_view(spans@) =~= Seq::<(nat, nat)>::empty());
        return spans;
    }
    let k: u64 = split_point(size);
    if from <= k {
        spans = list_consistency_spans(from, offset, k, known);
        let ghost listed = spans_view(spans@);
        spans.push((offset + k, size - k));
        assert(spans_view(spans@) =~= listed.push(((offset + k) as nat, (size - k) as nat)));
    } else {
        spans = list_consistency_spans(from - k, offset + k, size - k, false);
        let ghost listed = spans_view(spans@);
        spans.push((offset, k));
        assert(spans_view(spans@) =~= listed.push((offset as nat, k as nat)));
    }
    spans
}

/// The nodes read over a list of spans, sticking at the largest `u64`.
pub fn count_reads_over(spans: &Vec<(u64, u64)>) -> (count: u64)
    requires
        spans_within(spans_view(spans@), u64::MAX as nat),
    ensures
        count == saturated(reads_over(spans_view(spans@)) as int),
{
    let ghost listed = spans_view(spans@);
    let mut count: u64 = 0;
    let mut i: usize = 0;
    while i < spans.len()
        invariant
            i <= spans@.len(),
            listed == spans_view(spans@),
            spans_within(listed, u64::MAX as nat),
            count == saturated(reads_over(listed.take(i as int)) as int),
        decreases spans.len() - i,
    {
        proof {
            assert(listed[i as int].0 + listed[i as int].1 <= u64::MAX);
            assert(listed.take(i + 1).drop_last() =~= listed.take(i as int));
        }
        count = count.saturating_add(count_reads(spans[i].0, spans[i].1));
        i += 1;
    }
    assert(listed.take(i as int) =~= listed);
    count
}

impl TreeView {
    /// The inclusion path of a leaf in the tree over the first `size` leaves, or why it is not
    /// opened: the tree is not held, the leaf is outside it, or a node asked for is lost.
    pub open spec fn included(self, index: nat, size: nat) -> Result<Seq<Seq<u8>>, Fault> {
        if size > self.leaves.len() || index >= size {
            Err(Fault::Atl)
        } else {
            match self.gap_over(sibling_spans(index, 0, size)) {
                Some(node) => Err(missing(node)),
                None => Ok(inclusion_path(self.leaves.take(size as int), index)),
            }
        }
    }

    /// The consistency path between the trees over the first `from` and the first `to` leaves,
    /// or why it is not opened: the sizes are the wrong way round, or a node asked for is lost.
    pub open spec fn linked(self, from: nat, to: nat) -> Result<Seq<Seq<u8>>, Fault> {
        if from > to {
            Err(Fault::Atl)
        } else {
            match self.gap_over(consistency_spans(from, 0, to, true)) {
                Some(node) => Err(missing(node)),
                None => Ok(consistency_path(self.leaves.take(to as int), from)),
            }
        }
    }
}

/// Where every complete node is stored, no span of a consistency proof has a lost node.
pub proof fn whole_material_opens_consistency(
    material: TreeView,
    from: nat,
    offset: nat,
    size: nat,
    known: bool,
)
    requires
        material.held == complete_nodes(material.leaves.len()),
        from <= size,
        offset + size <= material.leaves.len(),
    ensures
        material.gap_over(consistency_spans(from, offset, size, known)) is None,
    decreases size,
{
    if from == size {
        if !known {
            whole_material_has_no_gap(material, offset, size);
            reveal_with_fuel(TreeView::gap_over, 2);
            let spans = seq![(offset, size)];
            assert(spans.drop_first() =~= Seq::<(nat, nat)>::empty());
        }
    } else if from > 0 {
        split_is_largest_power_below(size);
        let k = split(size);
        if from <= k {
            whole_material_opens_consistency(material, from, offset, k, known);
            whole_material_has_no_gap(material, offset + k, (size - k) as nat);
            no_gap_pushed(
                material,
                consistency_spans(from, offset, k, known),
                (offset + k, (size - k) as nat),
            );
        } else {
            whole_material_opens_consistency(
                material,
                (from - k) as nat,
                offset + k,
                (size - k) as nat,
                false,
            );
            whole_material_has_no_gap(material, offset, k);
            no_gap_pushed(
                material,
                consistency_spans((from - k) as nat, offset + k, (size - k) as nat, false),
                (offset, k),
            );
        }
    }
}

/// A span without a gap added to spans without one leaves none.
proof fn no_gap_pushed(material: TreeView, spans: Seq<(nat, nat)>, span: (nat, nat))
    requires
        material.gap_over(spans) is None,
        material.gap(span.0, span.1) is None,
    ensures
        material.gap_over(spans.push(span)) is None,
    decreases spans.len(),
{
    reveal_with_fuel(TreeView::gap_over, 2);
    if spans.len() == 0 {
        assert(spans.push(span)[0] == span);
        assert(spans.push(span).drop_first() =~= Seq::<(nat, nat)>::empty());
    } else {
        assert(spans.push(span)[0] == spans[0]);
        assert(spans.push(span).drop_first() =~= spans.drop_first().push(span));
        no_gap_pushed(material, spans.drop_first(), span);
    }
}

impl TreeMaterial {
    /// The first lost node over a list of spans.
    fn find_gap_over(&self, spans: &Vec<(u64, u64)>) -> (gap: Option<(u32, u64)>)
        requires
            self.wf(),
            spans_within(spans_view(spans@), self@.leaves.len()),
        ensures
            match gap {
                Some((level, index)) => self@.gap_over(spans_view(spans@)) == Some(
                    (level as nat, index as nat),
                ),
                None => self@.gap_over(spans_view(spans@)) is None,
            },
    {
        let ghost listed = spans_view(spans@);
        let mut i: usize = 0;
        assert(listed.skip(0) =~= listed);
        while i < spans.len()
            invariant
                self.wf(),
                i <= spans@.len(),
                listed == spans_view(spans@),
                spans_within(listed, self@.leaves.len()),
                self@.gap_over(listed) == self@.gap_over(listed.skip(i as int)),
            decreases spans.len() - i,
        {
            proof {
                assert(listed[i as int].0 + listed[i as int].1 <= self@.leaves.len());
                assert(listed.skip(i as int).drop_first() =~= listed.skip(i + 1));
                assert(listed.skip(i as int)[0] == listed[i as int]);
            }
            match self.find_gap(spans[i].0, spans[i].1) {
                Some(node) => {
                    return Some(node);
                },
                None => {},
            }
            i += 1;
        }
        None
    }

    /// The inclusion proof of the leaf at `leaf_index` in the tree of `tree_size` leaves.
    pub fn inclusion_proof(&self, leaf_index: u64, tree_size: u64) -> (opened: MirrorResult<
        InclusionProof,
    >)
        requires
            self.wf(),
        ensures
            match opened {
                Ok(p) => p.leaf_index == leaf_index && p.tree_size == tree_size && gives(
                    self@.included(leaf_index as nat, tree_size as nat),
                    hashes_view(p.path@),
                ),
                Err(error) => refuses(
                    self@.included(leaf_index as nat, tree_size as nat),
                    error,
                ),
            },
    {
        if tree_size > self.len() {
            let _ = self.open(0, tree_size)?;
        }
        if leaf_index < tree_size {
            let spans: Vec<(u64, u64)> = list_sibling_spans(leaf_index, tree_size);
            if let Some((level, node_index)) = self.find_gap_over(&spans) {
                return Err(MirrorError::TreeMaterialMissing { level, node_index });
            }
        }
        match generate_inclusion_proof(self, leaf_index, tree_size) {
            Ok(path) => Ok(InclusionProof { leaf_index, tree_size, path }),
            Err(error) => Err(MirrorError::Atl(error)),
        }
    }

    /// The consistency proof between two sizes of the tree, with what it read.
    pub fn consistency_proof(&self, from_size: u64, to_size: u64) -> (opened: MirrorResult<
        (ConsistencyProof, TreeReadCost),
    >)
        requires
            self.wf(),
            from_size > to_size || to_size <= self@.leaves.len(),
        ensures
            match opened {
                Ok((p, cost)) => {
                    &&& p.from_size == from_size
                    &&& p.to_size == to_size
                    &&& gives(
                        self@.linked(from_size as nat, to_size as nat),
                        hashes_view(p.path@),
                    )
                    &&& cost.tree_nodes == saturated(
                        reads_over(
                            consistency_spans(from_size as nat, 0, to_size as nat, true),
                        ) as int,
                    )
                },
                Err(error) => refuses(self@.linked(from_size as nat, to_size as nat), error),
            },
    {
        let mut tree_nodes: u64 = 0;
        if from_size <= to_size {
            let spans: Vec<(u64, u64)> = list_consistency_spans(from_size, 0, to_size, true);
            if let Some((level, node_index)) = self.find_gap_over(&spans) {
                return Err(MirrorError::TreeMaterialMissing { level, node_index });
            }
            tree_nodes = count_reads_over(&spans);
        }
        match generate_consistency_proof(self, from_size, to_size) {
            Ok(path) => Ok(
                (ConsistencyProof { from_size, to_size, path }, TreeReadCost { tree_nodes }),
            ),
            Err(error) => Err(MirrorError::Atl(error)),
        }
    }
}

/// A list of spans is opened exactly where every one of them is, and otherwise refused for the
/// first that is not.
pub proof fn spans_are_opened_where_each_of_them_is(material: TreeView, spans: Seq<(nat, nat)>)
    ensures
        match material.gap_over(spans) {
            Some(node) => exists|i: int|
                0 <= i < spans.len() && material.gap((#[trigger] spans[i]).0, spans[i].1) == Some(
                    node,
                ) && forall|j: int|
                    0 <= j < i ==> material.gap((#[trigger] spans[j]).0, spans[j].1) is None,
            None => forall|i: int|
                0 <= i < spans.len() ==> material.gap((#[trigger] spans[i]).0, spans[i].1) is None,
        },
    decreases spans.len(),
{
    if spans.len() > 0 {
        let rest = spans.drop_first();
        spans_are_opened_where_each_of_them_is(material, rest);
        assert forall|i: int| 0 < i < spans.len() implies #[trigger] spans[i] == rest[i - 1] by {}
        if material.gap(spans[0].0, spans[0].1) is None {
            if let Some(node) = material.gap_over(rest) {
                let i = choose|i: int|
                    0 <= i < rest.len() && material.gap((#[trigger] rest[i]).0, rest[i].1) == Some(
                        node,
                    ) && forall|j: int|
                        0 <= j < i ==> material.gap((#[trigger] rest[j]).0, rest[j].1) is None;
                assert(material.gap(spans[i + 1].0, spans[i + 1].1) == Some(node));
                assert forall|j: int| 0 <= j < i + 1 implies material.gap(
                    (#[trigger] spans[j]).0,
                    spans[j].1,
                ) is None by {
                    if j > 0 {
                        assert(spans[j] == rest[j - 1]);
                    }
                }
            }
        }
    }
}

/// An inclusion path is opened exactly where the tree is held, the leaf is in it and no node over
/// its sibling spans is lost; it is then the path of that leaf in that tree, and opens its root.
pub proof fn an_inclusion_path_is_that_of_its_leaf(material: TreeView, index: nat, size: nat)
    ensures
        ({
            let opened = material.included(index, size);
            let lost = material.gap_over(sibling_spans(index, 0, size));
            &&& size > material.leaves.len() || index >= size ==> opened == Err::<
                Seq<Seq<u8>>,
                Fault,
            >(Fault::Atl)
            &&& index < size <= material.leaves.len() ==> match lost {
                Some((level, node_index)) => opened == Err::<Seq<Seq<u8>>, Fault>(
                    Fault::TreeMaterialMissing {
                        level: level as u32,
                        node_index: node_index as u64,
                    },
                ),
                None => opened is Ok && inclusion_verdict(
                    material.leaves[index as int],
                    index,
                    size,
                    opened->Ok_0,
                    root_of(material.leaves.take(size as int)),
                ) == Some(true),
            }
        }),
{
    if index < size <= material.leaves.len() {
        let leaves = material.leaves.take(size as int);
        an_inclusion_path_opens_the_root(leaves, index, root_of(leaves));
        assert(leaves[index as int] == material.leaves[index as int]);
    }
}

/// Opening a subtree reads few nodes: at most one for each level of it, and never more than there
/// are leaves.
pub proof fn a_subtree_is_opened_by_few_nodes(offset: nat, size: nat, level: nat)
    requires
        offset % width(level) == 0,
        1 <= size <= width(level),
    ensures
        1 <= reads(offset, size) <= size,
        reads(offset, size) <= level + 1,
        size < width(level) ==> reads(offset, size) <= level,
        size == width(level) ==> reads(offset, size) == 1,
    decreases size,
{
    if size > 1 {
        if size == width(level) {
            level_of_width(level);
            assert(is_block(offset, size));
        }
        if !is_block(offset, size) {
            let power = split_is_largest_power_below(size);
            let k = split(size);
            if power >= level {
                width_is_monotone(level, power);
            }
            width_divides(power, level, offset);
            vstd::arithmetic::div_mod::lemma_mod_self_0(k as int);
            vstd::arithmetic::div_mod::lemma_mod_adds(offset as int, k as int, k as int);
            assert((offset + k) % k == 0);
            a_subtree_is_opened_by_few_nodes(offset, k, power);
            a_subtree_is_opened_by_few_nodes(offset + k, (size - k) as nat, power);
            if size - k == k {
                width_is_monotone(power + 1, level);
                assert(width(power + 1) == 2 * k);
                width_divides(power + 1, level, offset);
                level_of_width(power + 1);
                assert(is_block(offset, size));
            }
        } else if size < width(level) {
            if level == 0 {
                assert(width(0) == 1);
            }
        }
    } else if level == 0 {
        assert(width(0) == 1);
    }
}

/// Whether a digest collides between the nodes at one place of two recomputations along one path.
pub open spec fn paths_collide(
    a: Seq<u8>,
    b: Seq<u8>,
    index: nat,
    size: nat,
    path: Seq<Seq<u8>>,
) -> bool
    decreases size,
{
    if size <= 1 {
        false
    } else {
        proof {
            split_is_largest_power_below(size);
        }
        let k = split(size);
        let rest = path.drop_last();
        if index < k {
            let one = node_octets(path_root(a, index, k, rest), path.last());
            let two = node_octets(path_root(b, index, k, rest), path.last());
            collides(one, two) || paths_collide(a, b, index, k, rest)
        } else {
            let (at, left) = ((index - k) as nat, (size - k) as nat);
            let one = node_octets(path.last(), path_root(a, at, left, rest));
            let two = node_octets(path.last(), path_root(b, at, left, rest));
            collides(one, two) || paths_collide(a, b, at, left, rest)
        }
    }
}

/// What a path of 32-octet hashes leads to has 32 octets.
proof fn a_path_root_has_hash_length(leaf: Seq<u8>, index: nat, size: nat, path: Seq<Seq<u8>>)
    requires
        leaf.len() == 32,
    ensures
        path_root(leaf, index, size, path).len() == 32,
{
}

/// An inclusion proof is sound: two leaves for which one path opens one root at one index are
/// equal, or a digest collides between the nodes at some place of the two recomputations.
pub proof fn an_inclusion_proof_is_sound(
    a: Seq<u8>,
    b: Seq<u8>,
    index: nat,
    size: nat,
    path: Seq<Seq<u8>>,
    root: Seq<u8>,
)
    requires
        a.len() == 32,
        b.len() == 32,
        of_hash_length(path),
        inclusion_verdict(a, index, size, path, root) == Some(true),
        inclusion_verdict(b, index, size, path, root) == Some(true),
    ensures
        a == b || paths_collide(a, b, index, size, path),
{
    a_path_commits_to_its_leaf(a, b, index, 0, size, path);
}

/// A path commits to the leaf it leads from.
proof fn a_path_commits_to_its_leaf(
    a: Seq<u8>,
    b: Seq<u8>,
    index: nat,
    offset: nat,
    size: nat,
    path: Seq<Seq<u8>>,
)
    requires
        a.len() == 32,
        b.len() == 32,
        index < size,
        of_hash_length(path),
        path.len() == sibling_spans(index, offset, size).len(),
        path_root(a, index, size, path) == path_root(b, index, size, path),
    ensures
        a == b || paths_collide(a, b, index, size, path),
    decreases size,
{
    if size > 1 {
        split_is_largest_power_below(size);
        let k = split(size);
        let rest = path.drop_last();
        assert forall|i: int| 0 <= i < rest.len() implies (#[trigger] rest[i]).len() == 32 by {
            assert(rest[i] == path[i]);
        }
        assert(path.last() == path[path.len() - 1]);
        if index < k {
            let one = path_root(a, index, k, rest);
            let two = path_root(b, index, k, rest);
            a_path_root_has_hash_length(a, index, k, rest);
            a_path_root_has_hash_length(b, index, k, rest);
            if node_octets(one, path.last()) == node_octets(two, path.last()) {
                a_node_tells_its_children(one, path.last(), two, path.last());
                a_path_commits_to_its_leaf(a, b, index, offset, k, rest);
            } else {
                assert(collides(node_octets(one, path.last()), node_octets(two, path.last())));
            }
        } else {
            let (at, left) = ((index - k) as nat, (size - k) as nat);
            let one = path_root(a, at, left, rest);
            let two = path_root(b, at, left, rest);
            if node_octets(path.last(), one) == node_octets(path.last(), two) {
                a_node_tells_its_children(path.last(), one, path.last(), two);
                a_path_commits_to_its_leaf(a, b, at, offset + k, left, rest);
            } else {
                assert(collides(node_octets(path.last(), one), node_octets(path.last(), two)));
            }
        }
    }
}

} // verus!
