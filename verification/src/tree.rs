//! The stored tree material: every leaf hash, and the root of every complete subtree.
//!
//! A node of a level covers a power of two of leaves and is stored the moment its last leaf
//! arrives, so any root or proof over the log is opened from a few stored hashes. A stored
//! node that was lost is refused by name; opening a span never recomputes it.

use vstd::prelude::*;

use crate::error::{gives, outcome, refuses, Fault, MirrorError, MirrorResult};
use crate::geometry::{
    block_level, hashes_view, is_block, level_of, level_of_width, node_root_combines_children,
    span_root, span_root_of_one, span_root_survives_append, split, split_is_largest_power_below,
    split_point, width, width_at_64, width_is_monotone, width_is_positive,
};

verus! {

/// The largest number of leaves the index space can address.
pub const MAX_LEAVES: u64 = 0x7fff_ffff_ffff_ffff;

/// Leaf hashes, and the roots of complete subtrees by level and index, some possibly lost.
pub struct TreeMaterial {
    leaves: Vec<[u8; 32]>,
    roots: Vec<Vec<Option<[u8; 32]>>>,
}

/// What stored tree material holds: its leaves, and which interior nodes it still has.
#[verifier::ext_equal]
pub ghost struct TreeView {
    pub leaves: Seq<Seq<u8>>,
    pub held: Set<(nat, nat)>,
}

/// Every interior node that `count` leaves complete, by level and index.
pub open spec fn complete_nodes(count: nat) -> Set<(nat, nat)> {
    Set::new(|node: (nat, nat)| node.0 >= 1 && (node.1 + 1) * width(node.0) <= count)
}

impl TreeView {
    /// Whether a node, a leaf among them, is stored.
    pub open spec fn has(self, level: nat, index: nat) -> bool {
        if level == 0 {
            index < self.leaves.len()
        } else {
            self.held.contains((level, index))
        }
    }

    /// The first node that opening `size` leaves from `offset` on asks for and that is lost:
    /// a whole block asks for its node, any other span for its two parts, left part first.
    pub open spec fn gap(self, offset: nat, size: nat) -> Option<(nat, nat)>
        decreases size,
    {
        if size <= 1 {
            None
        } else if is_block(offset, size) {
            if self.held.contains((level_of(size), offset / size)) {
                None
            } else {
                Some((level_of(size), offset / size))
            }
        } else {
            proof {
                split_is_largest_power_below(size);
            }
            let k = split(size);
            match self.gap(offset, k) {
                Some(node) => Some(node),
                None => self.gap(offset + k, (size - k) as nat),
            }
        }
    }

    /// The first lost node over a list of spans, in order.
    pub open spec fn gap_over(self, spans: Seq<(nat, nat)>) -> Option<(nat, nat)>
        decreases spans.len(),
    {
        if spans.len() == 0 {
            None
        } else {
            match self.gap(spans[0].0, spans[0].1) {
                Some(node) => Some(node),
                None => self.gap_over(spans.drop_first()),
            }
        }
    }

    /// The first lost node that completing the nodes above leaf `count - 1` asks for, from
    /// `level` upwards.
    pub open spec fn sibling_gap(self, count: nat, level: nat) -> Option<(nat, nat)>
        decreases 64 - level,
    {
        if level >= 64 || count % width(level) != 0 {
            None
        } else if level > 1 && !self.held.contains(
            ((level - 1) as nat, (2 * (count / width(level)) - 2) as nat),
        ) {
            Some(((level - 1) as nat, (2 * (count / width(level)) - 2) as nat))
        } else {
            self.sibling_gap(count, level + 1)
        }
    }

    /// The material after one more leaf: every node the leaf completes is stored.
    pub open spec fn appended(self, leaf: Seq<u8>) -> TreeView {
        TreeView {
            leaves: self.leaves.push(leaf),
            held: self.held.union(
                complete_nodes(self.leaves.len() + 1).difference(complete_nodes(self.leaves.len())),
            ),
        }
    }

    /// The material over the first `count` leaves.
    pub open spec fn truncated(self, count: nat) -> TreeView {
        TreeView {
            leaves: self.leaves.take(count as int),
            held: self.held.intersect(complete_nodes(count)),
        }
    }
}

/// The refusal that names a lost node.
pub open spec fn missing(node: (nat, nat)) -> Fault {
    Fault::TreeMaterialMissing { level: node.0 as u32, node_index: node.1 as u64 }
}

impl View for TreeMaterial {
    type V = TreeView;

    closed spec fn view(&self) -> TreeView {
        TreeView {
            leaves: hashes_view(self.leaves@),
            held: Set::new(|node: (nat, nat)| self.stores(node.0, node.1)),
        }
    }
}

impl TreeMaterial {
    /// Whether an interior node is stored.
    spec fn stores(self, level: nat, index: nat) -> bool {
        &&& 1 <= level <= self.roots@.len()
        &&& index < self.roots@[level - 1]@.len()
        &&& self.roots@[level - 1]@[index as int] is Some
    }

    /// Each level has a place for exactly the nodes the leaves complete, and what is stored
    /// in it is the root over the leaves it covers.
    pub closed spec fn wf(self) -> bool {
        &&& self.leaves@.len() <= MAX_LEAVES
        &&& self.roots@.len() <= 63
        &&& self.leaves@.len() < width(self.roots@.len() + 1)
        &&& forall|l: int|
            0 <= l < self.roots@.len() ==> (#[trigger] self.roots@[l])@.len() == self.leaves@.len()
                / width((l + 1) as nat)
        &&& forall|l: int, i: int|
            0 <= l < self.roots@.len() && 0 <= i < self.roots@[l]@.len()
                && #[trigger] self.roots@[l]@[i] is Some ==> self.roots@[l]@[i]->0@ == span_root(
                hashes_view(self.leaves@),
                (i * width((l + 1) as nat)) as nat,
                width((l + 1) as nat),
            )
    }

    /// Only nodes that the leaves complete are stored, and there are at most [`MAX_LEAVES`]
    /// leaves.
    pub proof fn holds_complete_nodes_only(self)
        requires
            self.wf(),
        ensures
            self@.held.subset_of(complete_nodes(self@.leaves.len())),
            self@.leaves.len() <= MAX_LEAVES,
    {
        assert forall|node: (nat, nat)| self@.held.contains(node) implies complete_nodes(
            self@.leaves.len(),
        ).contains(node) by {
            let l = node.0 - 1;
            assert(self.roots@[l]@.len() == self.leaves@.len() / width(node.0));
            width_is_positive(node.0);
            index_fits(node.1, width(node.0), self.leaves@.len());
        }
    }

    /// No leaf, no node.
    pub fn new() -> (material: Self)
        ensures
            material.wf(),
            material@ == (TreeView { leaves: Seq::empty(), held: Set::empty() }),
    {
        let material = TreeMaterial { leaves: Vec::new(), roots: Vec::new() };
        assert(material@.leaves =~= Seq::<Seq<u8>>::empty());
        assert(width(1) == 2) by {
            reveal_with_fuel(width, 2);
        }
        assert(material@.held =~= Set::<(nat, nat)>::empty());
        material
    }

    /// How many leaves there are.
    pub fn len(&self) -> (count: u64)
        requires
            self.wf(),
        ensures
            count == self@.leaves.len(),
            count <= MAX_LEAVES,
    {
        self.leaves.len() as u64
    }

    /// The leaf hash at `index`.
    pub fn leaf(&self, index: u64) -> (leaf: [u8; 32])
        requires
            self.wf(),
            index < self@.leaves.len(),
        ensures
            leaf@ == self@.leaves[index as int],
    {
        assert(self@.leaves.len() == self.leaves@.len());
        assert(self.leaves@.len() == self.leaves.len());
        self.leaves[index as usize]
    }

    /// One stored node: level 0 holds the leaves, a higher level the roots of complete
    /// subtrees. `None` where it is not stored.
    pub fn node(&self, level: u32, index: u64) -> (node: Option<[u8; 32]>)
        requires
            self.wf(),
        ensures
            node is Some <==> self@.has(level as nat, index as nat),
            node is Some ==> (index + 1) * width(level as nat) <= self@.leaves.len(),
            node is Some ==> node->0@ == span_root(
                self@.leaves,
                (index * width(level as nat)) as nat,
                width(level as nat),
            ),
    {
        if level == 0 {
            if index < self.leaves.len() as u64 {
                proof {
                    span_root_of_one(self@.leaves, index as nat);
                    assert(width(0) == 1);
                    assert(index * 1 == index && (index + 1) * 1 == index + 1);
                }
                Some(self.leaves[index as usize])
            } else {
                None
            }
        } else {
            if level as usize <= self.roots.len() {
                let row: &Vec<Option<[u8; 32]>> = &self.roots[level as usize - 1];
                if index < row.len() as u64 {
                    proof {
                        let l = level - 1;
                        assert(self.roots@[l]@.len() == self.leaves@.len() / width(level as nat));
                        width_is_positive(level as nat);
                        index_fits(index as nat, width(level as nat), self.leaves@.len());
                    }
                    return row[index as usize];
                }
            }
            None
        }
    }
}

impl TreeMaterial {
    /// Append a leaf and store every node it completes; where a sibling of one of them is
    /// lost, nothing changes and that sibling is named.
    pub fn push_leaf(&mut self, leaf: [u8; 32]) -> (result: MirrorResult<()>)
        requires
            old(self).wf(),
            old(self)@.leaves.len() < MAX_LEAVES,
        ensures
            final(self).wf(),
            outcome(result) == (match old(self)@.sibling_gap(old(self)@.leaves.len() + 1, 1) {
                Some(node) => Err(missing(node)),
                None => Ok(()),
            }),
            result is Ok ==> final(self)@ == old(self)@.appended(leaf@),
            result is Err ==> *final(self) == *old(self),
    {
        let fresh: Vec<[u8; 32]> = self.completed_by(leaf)?;
        self.store_completed(leaf, &fresh);
        Ok(())
    }

    /// The nodes that `leaf` completes, from level 1 upwards.
    fn completed_by(&self, leaf: [u8; 32]) -> (fresh: MirrorResult<Vec<[u8; 32]>>)
        requires
            self.wf(),
            self@.leaves.len() < MAX_LEAVES,
        ensures
            match fresh {
                Ok(nodes) => {
                    &&& self@.sibling_gap(self@.leaves.len() + 1, 1) is None
                    &&& self.completes(leaf, nodes@)
                },
                Err(error) => self@.sibling_gap(self@.leaves.len() + 1, 1) matches Some(node)
                    && error@ == missing(node),
            },
    {
        let count: u64 = self.leaves.len() as u64 + 1;
        let ghost more = self@.leaves.push(leaf@);
        let mut fresh: Vec<[u8; 32]> = Vec::new();
        let mut carry: [u8; 32] = leaf;
        let mut level: u32 = 1;
        let mut wide: u64 = 2;
        proof {
            width_at_64();
            reveal_with_fuel(width, 2);
            assert(more.subrange(count - 1, count as int) =~= seq![leaf@]);
            assert(span_root(more, (count - 1) as nat, 1) == leaf@);
        }
        while wide <= count && count % wide == 0
            invariant
                self.wf(),
                count == self.leaves@.len() + 1,
                count <= MAX_LEAVES,
                more == self@.leaves.push(leaf@),
                1 <= level <= 63,
                wide == width(level as nat),
                wide >= 2,
                width(63) == 0x8000_0000_0000_0000,
                fresh@.len() == level - 1,
                (count as nat) % width((level - 1) as nat) == 0,
                carry@ == span_root(
                    more,
                    (count - width((level - 1) as nat)) as nat,
                    width((level - 1) as nat),
                ),
                width((level - 1) as nat) <= count,
                self@.sibling_gap(count as nat, 1) == self@.sibling_gap(
                    count as nat,
                    level as nat,
                ),
                forall|l: int|
                    0 <= l < fresh@.len() ==> {
                        &&& (#[trigger] fresh@[l])@ == span_root(
                            more,
                            (count - width((l + 1) as nat)) as nat,
                            width((l + 1) as nat),
                        )
                        &&& width((l + 1) as nat) <= count
                        &&& (count as nat) % width((l + 1) as nat) == 0
                    },
            decreases 64 - level,
        {
            proof {
                sibling_is_stored_before(self@.leaves.len(), level as nat);
                assert(2 * (count / wide) <= count) by (nonlinear_arith)
                    requires
                        wide >= 2,
                ;
            }
            let left_index: u64 = 2 * (count / wide) - 2;
            let left: [u8; 32] = match self.node(level - 1, left_index) {
                Some(node) => node,
                None => {
                    return Err(
                        MirrorError::TreeMaterialMissing {
                            level: level - 1,
                            node_index: left_index,
                        },
                    );
                },
            };
            proof {
                let below = (level - 1) as nat;
                let index = (count as nat / wide as nat - 1) as nat;
                assert((index + 1) * width(level as nat) == count);
                node_root_combines_children(more, below, index);
                assert(more.take(self@.leaves.len() as int) =~= self@.leaves);
                assert(left_index == 2 * index);
                assert((2 * index) * width(below) + width(below) == (2 * index + 1) * width(below))
                    by (nonlinear_arith);
                span_root_survives_append(
                    self@.leaves,
                    more,
                    (left_index * width(below)) as nat,
                    width(below),
                );
                assert((2 * index + 1) * width(below) == count - width(below)) by {
                    assert((2 * index + 2) * width(below) == (2 * index + 1) * width(below) + width(
                        below,
                    )) by (nonlinear_arith);
                }
                assert(index * width(level as nat) == count - width(level as nat)) by {
                    assert((index + 1) * width(level as nat) == index * width(level as nat) + width(
                        level as nat,
                    )) by (nonlinear_arith);
                }
            }
            carry = atl_core::core::merkle::hash_children(&left, &carry);
            fresh.push(carry);
            proof {
                if level == 63 {
                    assert(false);
                }
            }
            level = level + 1;
            wide = wide * 2;
        }
        proof {
            width_is_positive(level as nat);
            if wide > count {
                vstd::arithmetic::div_mod::lemma_small_mod(count as nat, wide as nat);
            }
            assert(count as nat % width(level as nat) != 0);
            assert(self@.sibling_gap(count as nat, level as nat) is None);
            assert(more.len() == count);
            assert(fresh@.len() + 1 == level);
            assert forall|l: int| 0 <= l < fresh@.len() implies {
                &&& (#[trigger] fresh@[l])@ == span_root(
                    more,
                    (more.len() - width((l + 1) as nat)) as nat,
                    width((l + 1) as nat),
                )
                &&& width((l + 1) as nat) <= more.len()
                &&& more.len() % width((l + 1) as nat) == 0
            } by {}
            assert(self.completes(leaf, fresh@));
        }
        Ok(fresh)
    }

    /// Whether `nodes` are the roots of the nodes `leaf` completes: one per level from 1 up,
    /// as far as the new leaf count is a multiple of the level's width.
    spec fn completes(self, leaf: [u8; 32], nodes: Seq<[u8; 32]>) -> bool {
        let more = self@.leaves.push(leaf@);
        let count = more.len();
        &&& nodes.len() <= 63
        &&& count % width(nodes.len() + 1) != 0
        &&& forall|l: int|
            0 <= l < nodes.len() ==> {
                &&& (#[trigger] nodes[l])@ == span_root(
                    more,
                    (count - width((l + 1) as nat)) as nat,
                    width((l + 1) as nat),
                )
                &&& width((l + 1) as nat) <= count
                &&& count % width((l + 1) as nat) == 0
            }
    }

    /// Append `leaf` and the nodes it completes.
    fn store_completed(&mut self, leaf: [u8; 32], fresh: &Vec<[u8; 32]>)
        requires
            old(self).wf(),
            old(self)@.leaves.len() < MAX_LEAVES,
            old(self).completes(leaf, fresh@),
        ensures
            final(self).wf(),
            final(self)@ == old(self)@.appended(leaf@),
    {
        let ghost before = *self;
        let ghost rows = self.roots@;
        self.leaves.push(leaf);
        let mut level: usize = 0;
        while level < fresh.len()
            invariant
                level <= fresh@.len() <= 63,
                before.wf(),
                rows == before.roots@,
                self.leaves@ == before.leaves@.push(leaf),
                self.roots@.len() == (if level > rows.len() {
                    level as nat
                } else {
                    rows.len()
                }),
                forall|l: int|
                    0 <= l < level ==> (#[trigger] self.roots@[l])@ == row_at(rows, l).push(
                        Some(fresh@[l]),
                    ),
                forall|l: int| level <= l < rows.len() ==> self.roots@[l] == #[trigger] rows[l],
            decreases fresh.len() - level,
        {
            if level < self.roots.len() {
                self.roots[level].push(Some(fresh[level]));
            } else {
                let mut row: Vec<Option<[u8; 32]>> = Vec::new();
                row.push(Some(fresh[level]));
                self.roots.push(row);
            }
            level += 1;
        }
        proof {
            before.appending_keeps_wf(*self, leaf, fresh@);
        }
    }

    /// Rows extended by the nodes a leaf completes are those of the longer log.
    proof fn appending_keeps_wf(self, after: TreeMaterial, leaf: [u8; 32], fresh: Seq<[u8; 32]>)
        requires
            self.wf(),
            self@.leaves.len() < MAX_LEAVES,
            self.completes(leaf, fresh),
            after.leaves@ == self.leaves@.push(leaf),
            after.roots@.len() == (if fresh.len() > self.roots@.len() {
                fresh.len()
            } else {
                self.roots@.len()
            }),
            forall|l: int|
                0 <= l < fresh.len() ==> (#[trigger] after.roots@[l])@ == row_at(
                    self.roots@,
                    l,
                ).push(Some(fresh[l])),
            forall|l: int|
                fresh.len() <= l < self.roots@.len() ==> after.roots@[l] == #[trigger] self.roots@[l],
        ensures
            after.wf(),
            after@ == self@.appended(leaf@),
    {
        let n = self.leaves@.len();
        let more = after@.leaves;
        assert(more =~= self@.leaves.push(leaf@));
        assert(more.take(n as int) =~= self@.leaves);
        assert forall|l: int| 0 <= l < after.roots@.len() implies (#[trigger] after.roots@[l])@.len()
            == (n + 1) / width((l + 1) as nat) && (l < self.roots@.len() ==> self.roots@[l]@.len()
            == n / width((l + 1) as nat)) && (l >= self.roots@.len() ==> n / width((l + 1) as nat)
            == 0) by {
            self.row_length(l);
            width_is_positive((l + 1) as nat);
            quotient_steps(n, width((l + 1) as nat));
            if l >= fresh.len() {
                if (n + 1) % width((l + 1) as nat) == 0 {
                    width_divides(fresh.len() + 1, (l + 1) as nat, n + 1);
                }
            }
        }
        assert(n + 1 < width(after.roots@.len() + 1)) by {
            if fresh.len() > self.roots@.len() {
                width_is_monotone(self.roots@.len() + 1, fresh.len());
                width_is_positive(fresh.len());
            } else if n + 1 == width(self.roots@.len() + 1) {
                width_is_positive(self.roots@.len() + 1);
                width_divides(fresh.len() + 1, self.roots@.len() + 1, n + 1);
            }
        }
        assert forall|l: int, i: int|
            0 <= l < after.roots@.len() && 0 <= i < after.roots@[l]@.len()
                && #[trigger] after.roots@[l]@[i] is Some implies after.roots@[l]@[i]->0@ == span_root(
            more,
            (i * width((l + 1) as nat)) as nat,
            width((l + 1) as nat),
        ) by {
            let w = width((l + 1) as nat);
            self.row_length(l);
            width_is_positive((l + 1) as nat);
            quotient_steps(n, w);
            if i < n / w {
                index_fits(i as nat, w, n);
                assert(i * w + w == (i + 1) * w) by (nonlinear_arith);
                assert(i * w >= 0) by (nonlinear_arith)
                    requires
                        i >= 0,
                ;
                span_root_survives_append(self@.leaves, more, (i * w) as nat, w);
                assert(self.roots@[l]@[i] is Some);
            }
        }
        assert(after@.held =~= self@.appended(leaf@).held) by {
            assert forall|node: (nat, nat)| after@.held.contains(node) == self@.appended(
                leaf@,
            ).held.contains(node) by {
                let l = node.0 - 1;
                let w = width(node.0);
                width_is_positive(node.0);
                if node.0 >= 1 {
                    self.row_length(l);
                    quotient_steps(n, w);
                    if (node.1 + 1) * w == n + 1 {
                        vstd::arithmetic::div_mod::lemma_mod_multiples_basic(
                            (node.1 + 1) as int,
                            w as int,
                        );
                        vstd::arithmetic::div_mod::lemma_div_multiples_vanish(
                            (node.1 + 1) as int,
                            w as int,
                        );
                        assert(w * (node.1 + 1) == (node.1 + 1) * w) by (nonlinear_arith);
                        if node.0 > fresh.len() {
                            width_divides(fresh.len() + 1, node.0, n + 1);
                        }
                        assert(node.1 == n / w);
                        assert(after.roots@[l]@.len() == (n + 1) / w);
                    }
                    if after@.held.contains(node) && !self@.held.contains(node) {
                        assert(node.1 == n / w);
                        assert((n / w + 1) * w == (n / w) * w + w) by (nonlinear_arith);
                    }
                    if self@.held.contains(node) {
                        assert(after.roots@[l]@[node.1 as int] == self.roots@[l]@[node.1 as int]);
                    }
                }
            }
        }
    }

    /// The length of a row, and that there is nothing beyond the last one.
    proof fn row_length(self, l: int)
        requires
            self.wf(),
            l >= 0,
        ensures
            l < self.roots@.len() ==> self.roots@[l]@.len() == self.leaves@.len() / width(
                (l + 1) as nat,
            ),
            l >= self.roots@.len() ==> self.leaves@.len() / width((l + 1) as nat) == 0,
            row_at(self.roots@, l).len() == self.leaves@.len() / width((l + 1) as nat),
    {
        if l >= self.roots@.len() {
            width_is_monotone(self.roots@.len() + 1, (l + 1) as nat);
            vstd::arithmetic::div_mod::lemma_basic_div(
                self.leaves@.len() as int,
                width((l + 1) as nat) as int,
            );
        }
    }
}

/// Where every complete node is stored, one more leaf finds all its siblings and stores every
/// node of the longer log.
pub proof fn whole_material_stays_whole(material: TreeView, leaf: Seq<u8>)
    requires
        material.held == complete_nodes(material.leaves.len()),
        material.leaves.len() < MAX_LEAVES,
    ensures
        material.sibling_gap(material.leaves.len() + 1, 1) is None,
        material.appended(leaf).held == complete_nodes(material.leaves.len() + 1),
{
    siblings_are_whole(material, 1);
    assert(material.appended(leaf).held =~= complete_nodes(material.leaves.len() + 1));
}

/// From `level` upwards no sibling is lost where every complete node is stored.
proof fn siblings_are_whole(material: TreeView, level: nat)
    requires
        material.held == complete_nodes(material.leaves.len()),
        level >= 1,
    ensures
        material.sibling_gap(material.leaves.len() + 1, level) is None,
    decreases 64 - level,
{
    let count = material.leaves.len() + 1;
    if level < 64 && count % width(level) == 0 {
        width_is_positive(level);
        if width(level) > count {
            vstd::arithmetic::div_mod::lemma_small_mod(count, width(level));
        }
        sibling_is_stored_before(material.leaves.len(), level);
        siblings_are_whole(material, level + 1);
    }
}

/// Where every complete node is stored, no span of the log has a lost node.
pub proof fn whole_material_has_no_gap(material: TreeView, offset: nat, size: nat)
    requires
        material.held == complete_nodes(material.leaves.len()),
        offset + size <= material.leaves.len(),
    ensures
        material.gap(offset, size) is None,
    decreases size,
{
    if size > 1 {
        if is_block(offset, size) {
            let q = offset / size;
            assert((q + 1) * size == offset + size) by (nonlinear_arith)
                requires
                    size >= 1,
                    offset % size == 0,
                    q == offset / size,
            ;
            if level_of(size) == 0 {
                assert(width(0) == 1);
            }
        } else {
            split_is_largest_power_below(size);
            whole_material_has_no_gap(material, offset, split(size));
            whole_material_has_no_gap(
                material,
                offset + split(size),
                (size - split(size)) as nat,
            );
        }
    }
}

impl TreeMaterial {
    /// The whole material over a list of leaf hashes.
    pub fn over(leaves: &Vec<[u8; 32]>) -> (material: Self)
        requires
            leaves@.len() <= MAX_LEAVES,
        ensures
            material.wf(),
            material@.leaves == hashes_view(leaves@),
            material@.held == complete_nodes(leaves@.len()),
    {
        let mut material = TreeMaterial::new();
        proof {
            assert(hashes_view(leaves@.take(0)) =~= Seq::<Seq<u8>>::empty());
            assert(complete_nodes(0) =~= Set::<(nat, nat)>::empty()) by {
                assert forall|node: (nat, nat)| !complete_nodes(0).contains(node) by {
                    width_is_positive(node.0);
                    assert((node.1 + 1) * width(node.0) > 0) by (nonlinear_arith)
                        requires
                            width(node.0) >= 1,
                    ;
                }
            }
        }
        let mut i: usize = 0;
        while i < leaves.len()
            invariant
                i <= leaves@.len() <= MAX_LEAVES,
                material.wf(),
                material@.leaves == hashes_view(leaves@.take(i as int)),
                material@.held == complete_nodes(i as nat),
            decreases leaves.len() - i,
        {
            proof {
                whole_material_stays_whole(material@, leaves@[i as int]@);
                assert(hashes_view(leaves@.take(i + 1)) =~= hashes_view(leaves@.take(i as int)).push(
                    leaves@[i as int]@,
                ));
            }
            let pushed = material.push_leaf(leaves[i]);
            assert(pushed is Ok);
            i += 1;
        }
        assert(leaves@.take(i as int) =~= leaves@);
        material
    }

    /// Drop every leaf from `count` on, and every node that covered one of them.
    pub fn truncate(&mut self, count: u64)
        requires
            old(self).wf(),
            count <= old(self)@.leaves.len(),
        ensures
            final(self).wf(),
            final(self)@ == old(self)@.truncated(count as nat),
    {
        let ghost before = *self;
        let ghost rows = self.roots@;
        assert(self@.leaves.len() == self.leaves@.len());
        self.leaves.truncate(count as usize);
        let mut level: usize = 0;
        let mut wide: u64 = 2;
        proof {
            width_at_64();
            reveal_with_fuel(width, 2);
        }
        while level < self.roots.len()
            invariant
                before.wf(),
                count <= before.leaves@.len(),
                rows == before.roots@,
                self.leaves@ == before.leaves@.take(count as int),
                self.roots@.len() == rows.len(),
                level <= rows.len() <= 63,
                width(63) == 0x8000_0000_0000_0000,
                level < rows.len() ==> wide == width((level + 1) as nat),
                forall|l: int|
                    0 <= l < level ==> (#[trigger] self.roots@[l])@ == rows[l]@.take(
                        (count as nat / width((l + 1) as nat)) as int,
                    ),
                forall|l: int| level <= l < rows.len() ==> self.roots@[l] == #[trigger] rows[l],
            decreases rows.len() - level,
        {
            proof {
                before.row_length(level as int);
                width_is_positive((level + 1) as nat);
                vstd::arithmetic::div_mod::lemma_div_is_ordered(
                    count as int,
                    before.leaves@.len() as int,
                    wide as int,
                );
            }
            let kept: usize = (count / wide) as usize;
            self.roots[level].truncate(kept);
            level += 1;
            if level < self.roots.len() {
                proof {
                    width_is_monotone((level + 1) as nat, 63);
                }
                wide = wide * 2;
            }
        }
        proof {
            let n = count as nat;
            assert(self@.leaves =~= before@.leaves.take(count as int));
            assert forall|l: int| 0 <= l < self.roots@.len() implies (#[trigger] self.roots@[l])@.len()
                == n / width((l + 1) as nat) by {
                before.row_length(l);
                width_is_positive((l + 1) as nat);
                vstd::arithmetic::div_mod::lemma_div_is_ordered(
                    count as int,
                    before.leaves@.len() as int,
                    width((l + 1) as nat) as int,
                );
            }
            assert forall|l: int, i: int|
                0 <= l < self.roots@.len() && 0 <= i < self.roots@[l]@.len()
                    && #[trigger] self.roots@[l]@[i] is Some implies self.roots@[l]@[i]->0@
                == span_root(
                self@.leaves,
                (i * width((l + 1) as nat)) as nat,
                width((l + 1) as nat),
            ) by {
                let w = width((l + 1) as nat);
                width_is_positive((l + 1) as nat);
                index_fits(i as nat, w, n);
                assert(i * w + w == (i + 1) * w && i * w >= 0) by (nonlinear_arith)
                    requires
                        i >= 0,
                ;
                assert(before@.leaves.take(n as int) =~= self@.leaves);
                span_root_survives_append(self@.leaves, before@.leaves, (i * w) as nat, w);
                before.row_length(l);
                vstd::arithmetic::div_mod::lemma_div_is_ordered(
                    n as int,
                    before.leaves@.len() as int,
                    w as int,
                );
                assert(before.roots@[l]@[i] == self.roots@[l]@[i]);
            }
            assert(self@.held =~= before@.truncated(n).held) by {
                assert forall|node: (nat, nat)| self@.held.contains(node) == before@.truncated(
                    n,
                ).held.contains(node) by {
                    let l = node.0 - 1;
                    let w = width(node.0);
                    width_is_positive(node.0);
                    if 1 <= node.0 <= rows.len() {
                        before.row_length(l);
                        vstd::arithmetic::div_mod::lemma_div_is_ordered(
                            n as int,
                            before.leaves@.len() as int,
                            w as int,
                        );
                        if node.1 < n / w {
                            index_fits(node.1, w, n);
                            assert(self.roots@[l]@[node.1 as int] == rows[l]@[node.1 as int]);
                        } else {
                            assert(!((node.1 + 1) * w <= n)) by (nonlinear_arith)
                                requires
                                    w >= 1,
                                    node.1 >= n / w,
                            ;
                        }
                    }
                }
            }
        }
    }

    /// Lose a stored node, as a damaged database does.
    pub fn forget(&mut self, level: u32, node_index: u64)
        requires
            old(self).wf(),
            level >= 1,
        ensures
            final(self).wf(),
            final(self)@.leaves == old(self)@.leaves,
            final(self)@.held == old(self)@.held.remove((level as nat, node_index as nat)),
    {
        let ghost before = *self;
        if level as usize <= self.roots.len() {
            let l: usize = level as usize - 1;
            if node_index < self.roots[l].len() as u64 {
                self.roots[l][node_index as usize] = None;
                proof {
                    assert forall|k: int|
                        0 <= k < self.roots@.len() implies (#[trigger] self.roots@[k])@.len()
                        == self.leaves@.len() / width((k + 1) as nat) by {
                        before.row_length(k);
                    }
                    assert forall|k: int, i: int|
                        0 <= k < self.roots@.len() && 0 <= i < self.roots@[k]@.len()
                            && #[trigger] self.roots@[k]@[i] is Some implies self.roots@[k]@[i]->0@
                        == span_root(
                        hashes_view(self.leaves@),
                        (i * width((k + 1) as nat)) as nat,
                        width((k + 1) as nat),
                    ) by {
                        assert(before.roots@[k]@[i] == self.roots@[k]@[i]);
                    }
                }
            }
        }
        assert(self@.held =~= before@.held.remove((level as nat, node_index as nat)));
    }

    /// The first lost node that opening `size` leaves from `offset` on asks for.
    pub fn find_gap(&self, offset: u64, size: u64) -> (gap: Option<(u32, u64)>)
        requires
            self.wf(),
            offset + size <= self@.leaves.len(),
        ensures
            match gap {
                Some((level, index)) => self@.gap(offset as nat, size as nat) == Some(
                    (level as nat, index as nat),
                ),
                None => self@.gap(offset as nat, size as nat) is None,
            },
        decreases size,
    {
        assert(self@.leaves.len() <= MAX_LEAVES);
        if size <= 1 {
            return None;
        }
        match block_level(offset, size) {
            Some(level) => {
                let index: u64 = offset / size;
                proof {
                    if level == 0 {
                        assert(width(0) == 1);
                    }
                }
                match self.node(level, index) {
                    Some(_) => None,
                    None => Some((level, index)),
                }
            },
            None => {
                let k: u64 = split_point(size);
                match self.find_gap(offset, k) {
                    Some(node) => Some(node),
                    None => self.find_gap(offset + k, size - k),
                }
            },
        }
    }

    /// The root over `size` leaves from `offset` on, opened from the stored nodes: refused
    /// where the span is empty or not held, and where a node it asks for is lost.
    pub fn open(&self, offset: u64, size: u64) -> (root: MirrorResult<[u8; 32]>)
        requires
            self.wf(),
        ensures
            match root {
                Ok(hash) => gives(self@.opened(offset as nat, size as nat), hash@),
                Err(error) => refuses(self@.opened(offset as nat, size as nat), error),
            },
    {
        let count: u64 = self.len();
        if 0 < size && size <= count && offset <= count - size {
            if let Some((level, node_index)) = self.find_gap(offset, size) {
                return Err(MirrorError::TreeMaterialMissing { level, node_index });
            }
        }
        match compute_subtree_root(self, offset, size) {
            Ok(hash) => Ok(hash),
            Err(error) => Err(MirrorError::Atl(error)),
        }
    }
}

impl TreeView {
    /// The root over `size` leaves from `offset` on, or why it is not opened.
    pub open spec fn opened(self, offset: nat, size: nat) -> Result<Seq<u8>, Fault> {
        if size == 0 || offset + size > self.leaves.len() {
            Err(Fault::Atl)
        } else {
            match self.gap(offset, size) {
                Some(node) => Err(missing(node)),
                None => Ok(span_root(self.leaves, offset, size)),
            }
        }
    }
}

/// `atl_core::core::merkle::compute_subtree_root` over the stored nodes.
///
/// The callback answers with a node's root or not at all, so the result is the root over the
/// span wherever the span is held and not empty, and an error otherwise: an empty span is
/// refused, and a leaf that is not held is missing.
#[verifier::external_body]
fn compute_subtree_root(tree: &TreeMaterial, offset: u64, size: u64) -> (root: Result<
    [u8; 32],
    atl_core::AtlError,
>)
    requires
        tree.wf(),
    ensures
        match root {
            Ok(hash) => 0 < size && offset + size <= tree@.leaves.len() && hash@ == span_root(
                tree@.leaves,
                offset as nat,
                size as nat,
            ),
            Err(_) => size == 0 || offset + size > tree@.leaves.len(),
        },
{
    atl_core::core::merkle::compute_subtree_root(
        offset,
        size,
        &|level, index| tree.node(level, index),
    )
}

/// A row of nodes, empty beyond the last one.
spec fn row_at(rows: Seq<Vec<Option<[u8; 32]>>>, l: int) -> Seq<Option<[u8; 32]>> {
    if 0 <= l < rows.len() {
        rows[l]@
    } else {
        Seq::empty()
    }
}

/// One more leaf adds one to a quotient exactly where the new count is a multiple.
proof fn quotient_steps(count: nat, wide: nat)
    requires
        wide >= 1,
    ensures
        (count + 1) % wide == 0 ==> (count + 1) / wide == count / wide + 1 && (count / wide) * wide
            + wide == count + 1,
        (count + 1) % wide != 0 ==> (count + 1) / wide == count / wide,
{
    let q = count / wide;
    let r = count % wide;
    assert(count == q * wide + r && 0 <= r < wide) by (nonlinear_arith)
        requires
            wide >= 1,
            q == count / wide,
            r == count % wide,
    ;
    if r + 1 == wide {
        assert((q + 1) * wide == q * wide + wide) by (nonlinear_arith);
        vstd::arithmetic::div_mod::lemma_fundamental_div_mod_converse(
            (count + 1) as int,
            wide as int,
            (q + 1) as int,
            0,
        );
    } else {
        vstd::arithmetic::div_mod::lemma_fundamental_div_mod_converse(
            (count + 1) as int,
            wide as int,
            q as int,
            (r + 1) as int,
        );
    }
}

/// A multiple of a wider level is a multiple of a narrower one.
pub(crate) proof fn width_divides(low: nat, high: nat, count: nat)
    requires
        low <= high,
        count % width(high) == 0,
    ensures
        count % width(low) == 0,
    decreases high,
{
    if low < high {
        let w = width((high - 1) as nat);
        width_is_positive((high - 1) as nat);
        let q = count / (2 * w);
        assert(count == (2 * q) * w) by (nonlinear_arith)
            requires
                w >= 1,
                count % (2 * w) == 0,
                q == count / (2 * w),
        ;
        vstd::arithmetic::div_mod::lemma_mod_multiples_basic((2 * q) as int, w as int);
        width_divides(low, (high - 1) as nat, count);
    }
}

/// The left sibling of a node that completes with leaf `count` was complete before it.
proof fn sibling_is_stored_before(count: nat, level: nat)
    requires
        level >= 1,
        (count + 1) % width(level) == 0,
        width(level) <= count + 1,
    ensures
        (count + 1) / width(level) >= 1,
        ((count + 1) / width(level)) * width(level) == count + 1,
        (2 * ((count + 1) / width(level)) - 1) * width((level - 1) as nat) <= count,
{
    width_is_positive((level - 1) as nat);
    let w = width((level - 1) as nat);
    let q = (count + 1) / (2 * w);
    assert(q * (2 * w) == count + 1 && q >= 1) by (nonlinear_arith)
        requires
            w >= 1,
            (count + 1) % (2 * w) == 0,
            2 * w <= count + 1,
            q == (count + 1) / (2 * w),
    ;
    assert((2 * q - 1) * w + w == q * (2 * w)) by (nonlinear_arith);
}

/// An index below a quotient lies whole within the dividend.
proof fn index_fits(index: nat, wide: nat, count: nat)
    requires
        wide >= 1,
        index < count / wide,
    ensures
        (index + 1) * wide <= count,
{
    assert((index + 1) * wide <= count) by (nonlinear_arith)
        requires
            wide >= 1,
            index + 1 <= count / wide,
    ;
}

// ---- what opening a span asks for ----

/// Whether a span covers the leaves of a node.
pub open spec fn covers(offset: nat, size: nat, node: (nat, nat)) -> bool {
    offset <= node.1 * width(node.0) && (node.1 + 1) * width(node.0) <= offset + size
}

/// Whether opening a span asks for a node: it is an interior node whose leaves the span covers,
/// and the span does not cover those of the node above it.
pub open spec fn asks_for(offset: nat, size: nat, node: (nat, nat)) -> bool {
    &&& node.0 >= 1
    &&& covers(offset, size, node)
    &&& !covers(offset, size, (node.0 + 1, node.1 / 2))
}

/// A multiple of twice a width that does not lie beyond a node does not lie beyond its parent.
proof fn a_parent_starts_no_lower(index: nat, w: nat, low: nat)
    requires
        w >= 1,
        low % (2 * w) == 0,
        low <= index * w,
    ensures
        low <= (index / 2) * (2 * w),
{
    let a = low / (2 * w);
    assert(low == a * (2 * w)) by (nonlinear_arith)
        requires
            w >= 1,
            low % (2 * w) == 0,
            a == low / (2 * w),
    ;
    assert(2 * a <= index) by (nonlinear_arith)
        requires
            w >= 1,
            a * (2 * w) <= index * w,
    ;
    assert(a * (2 * w) <= (index / 2) * (2 * w)) by (nonlinear_arith)
        requires
            w >= 1,
            a <= index / 2,
    ;
}

/// A multiple of twice a width that a node does not pass is not passed by its parent.
proof fn a_parent_ends_no_higher(index: nat, w: nat, high: nat)
    requires
        w >= 1,
        high % (2 * w) == 0,
        (index + 1) * w <= high,
    ensures
        (index / 2 + 1) * (2 * w) <= high,
{
    let b = high / (2 * w);
    assert(high == b * (2 * w)) by (nonlinear_arith)
        requires
            w >= 1,
            high % (2 * w) == 0,
            b == high / (2 * w),
    ;
    assert(index + 1 <= 2 * b) by (nonlinear_arith)
        requires
            w >= 1,
            (index + 1) * w <= b * (2 * w),
    ;
    assert((index / 2 + 1) * (2 * w) <= b * (2 * w)) by (nonlinear_arith)
        requires
            w >= 1,
            index / 2 + 1 <= b,
    ;
}

/// A node does not cross a multiple of its width.
proof fn a_node_does_not_cross(index: nat, w: nat, at: nat)
    requires
        w >= 1,
        at % w == 0,
    ensures
        at <= index * w || (index + 1) * w <= at,
{
    let c = at / w;
    assert(at == c * w) by (nonlinear_arith)
        requires
            w >= 1,
            at % w == 0,
            c == at / w,
    ;
    if c <= index {
        assert(c * w <= index * w) by (nonlinear_arith)
            requires
                c <= index,
        ;
    } else {
        assert((index + 1) * w <= c * w) by (nonlinear_arith)
            requires
                index + 1 <= c,
        ;
    }
}

/// Opening a whole block asks for its own node and no other.
proof fn a_block_asks_for_its_node(offset: nat, level: nat, node: (nat, nat))
    requires
        level >= 1,
        offset % width(level) == 0,
    ensures
        asks_for(offset, width(level), node) <==> node == (level, offset / width(level)),
{
    let size = width(level);
    let at = offset / size;
    width_is_positive(level);
    assert(offset == at * size) by (nonlinear_arith)
        requires
            size >= 1,
            offset % size == 0,
            at == offset / size,
    ;
    assert((at + 1) * size == at * size + size) by (nonlinear_arith);
    assert(width(level + 1) == 2 * size);
    assert((at / 2 + 1) * (2 * size) - (at / 2) * (2 * size) == 2 * size) by (nonlinear_arith);
    assert(asks_for(offset, size, (level, at)));
    if asks_for(offset, size, node) && node != (level, at) {
        let l = node.0;
        let i = node.1;
        let w = width(l);
        width_is_positive(l);
        assert((i + 1) * w == i * w + w) by (nonlinear_arith);
        if l > level {
            width_is_monotone(level, l);
        } else if l == level {
            assert(i == at) by (nonlinear_arith)
                requires
                    size >= 1,
                    at * size <= i * size,
                    i * size + size <= at * size + size,
            ;
        } else {
            assert(width(l + 1) == 2 * w);
            width_divides(l + 1, level, offset);
            vstd::arithmetic::div_mod::lemma_mod_self_0(size as int);
            width_divides(l + 1, level, size);
            vstd::arithmetic::div_mod::lemma_mod_adds(
                offset as int,
                size as int,
                (2 * w) as int,
            );
            assert((offset + size) % (2 * w) == 0);
            a_parent_starts_no_lower(i, w, offset);
            a_parent_ends_no_higher(i, w, offset + size);
        }
    }
}

/// Opening a span asks for what its two parts ask for.
proof fn a_span_asks_for_what_its_parts_do(offset: nat, size: nat, level: nat, node: (nat, nat))
    requires
        offset % width(level + 1) == 0,
        width(level) < size < width(level + 1),
    ensures
        asks_for(offset, size, node) <==> asks_for(offset, width(level), node) || asks_for(
            offset + width(level),
            (size - width(level)) as nat,
            node,
        ),
{
    let k = width(level);
    let rest = (size - k) as nat;
    let l = node.0;
    let i = node.1;
    let w = width(l);
    let parent = (l + 1, i / 2);
    width_is_positive(level);
    width_is_positive(l);
    assert(width(level + 1) == 2 * k);
    assert(width(l + 1) == 2 * w);
    assert((i + 1) * w == i * w + w) by (nonlinear_arith);
    assert((i / 2 + 1) * (2 * w) == (i / 2) * (2 * w) + 2 * w) by (nonlinear_arith);
    width_divides(level, level + 1, offset);
    vstd::arithmetic::div_mod::lemma_mod_self_0(k as int);
    vstd::arithmetic::div_mod::lemma_mod_adds(offset as int, k as int, k as int);
    assert((offset + k) % k == 0);
    if l >= 1 && covers(offset, size, node) {
        if l > level {
            width_is_monotone(level + 1, l);
        }
        width_divides(l, level, offset + k);
        a_node_does_not_cross(i, w, offset + k);
    }
    if asks_for(offset, k, node) {
        if level == 0 {
            width_is_monotone(1, l);
            reveal_with_fuel(width, 2);
        } else {
            a_block_asks_for_its_node(offset, level, node);
        }
    }
    if asks_for(offset + k, rest, node) && covers(offset, size, parent) {
        if l >= level {
            width_is_monotone(level, l);
        }
        width_divides(l + 1, level, offset + k);
        a_parent_starts_no_lower(i, w, offset + k);
    }
}

/// A span is opened exactly where no node it asks for is lost, and otherwise the node it is
/// refused for is one of those. The span is that of a subtree: it starts at a multiple of a width
/// that it does not exceed.
pub proof fn a_span_is_opened_where_no_node_it_asks_for_is_lost(
    material: TreeView,
    offset: nat,
    size: nat,
    level: nat,
)
    requires
        offset % width(level) == 0,
        size <= width(level),
    ensures
        match material.gap(offset, size) {
            Some(node) => asks_for(offset, size, node) && !material.held.contains(node),
            None => forall|node: (nat, nat)| #[trigger]
                asks_for(offset, size, node) ==> material.held.contains(node),
        },
    decreases size,
{
    if size <= 1 {
        assert forall|node: (nat, nat)| #[trigger] asks_for(offset, size, node) implies false by {
            width_is_monotone(1, node.0);
            reveal_with_fuel(width, 2);
            assert((node.1 + 1) * width(node.0) == node.1 * width(node.0) + width(node.0))
                by (nonlinear_arith);
        }
    } else if is_block(offset, size) {
        let own = level_of(size);
        if own == 0 {
            assert(width(0) == 1);
        }
        assert forall|node: (nat, nat)| #[trigger] asks_for(offset, size, node) <==> node == (
            own,
            offset / size,
        ) by {
            a_block_asks_for_its_node(offset, own, node);
        }
    } else {
        let power = split_is_largest_power_below(size);
        let k = split(size);
        let rest = (size - k) as nat;
        if power >= level {
            width_is_monotone(level, power);
        }
        width_divides(power + 1, level, offset);
        width_divides(power, power + 1, offset);
        assert(width(power + 1) == 2 * k);
        if size == 2 * k {
            level_of_width(power + 1);
            assert(is_block(offset, size));
        }
        vstd::arithmetic::div_mod::lemma_mod_self_0(k as int);
        vstd::arithmetic::div_mod::lemma_mod_adds(offset as int, k as int, k as int);
        assert((offset + k) % k == 0);
        a_span_is_opened_where_no_node_it_asks_for_is_lost(material, offset, k, power);
        a_span_is_opened_where_no_node_it_asks_for_is_lost(material, offset + k, rest, power);
        assert forall|node: (nat, nat)| #[trigger] asks_for(offset, size, node) <==> asks_for(
            offset,
            k,
            node,
        ) || asks_for(offset + k, rest, node) by {
            a_span_asks_for_what_its_parts_do(offset, size, power, node);
        }
    }
}

/// One more leaf is taken exactly where no left sibling of a node it completes is lost, and is
/// otherwise refused for one of those.
pub proof fn a_leaf_is_taken_where_no_sibling_is_lost(material: TreeView, count: nat, level: nat)
    requires
        1 <= level,
        count >= 1,
    ensures
        match material.sibling_gap(count, level) {
            Some(node) => !material.held.contains(node) && exists|l: nat|
                level <= l < 64 && 2 <= l && count % #[trigger] width(l) == 0 && node == (
                    (l - 1) as nat,
                    (2 * (count / width(l)) - 2) as nat,
                ),
            None => forall|l: nat|
                level <= l < 64 && 2 <= l && count % #[trigger] width(l) == 0
                    ==> material.held.contains(
                    ((l - 1) as nat, (2 * (count / width(l)) - 2) as nat),
                ),
        },
    decreases 64 - level,
{
    if level < 64 {
        if count % width(level) == 0 {
            if !(level > 1 && !material.held.contains(
                ((level - 1) as nat, (2 * (count / width(level)) - 2) as nat),
            )) {
                a_leaf_is_taken_where_no_sibling_is_lost(material, count, level + 1);
            }
        } else {
            assert forall|l: nat|
                level <= l < 64 && 2 <= l && count % #[trigger] width(l) == 0 implies false by {
                width_divides(level, l, count);
            }
        }
    }
}

} // verus!
