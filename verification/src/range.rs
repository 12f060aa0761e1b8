//! Range enumeration: the entries of a window, with a proof that they are all of it.
//!
//! The proof carries the root of every maximal subtree that lies outside the window, so it is
//! built from stored tree nodes and the window alone; the rest of the log is not read.

use vstd::prelude::*;

use crate::error::{gives, refuses, Fault, MirrorError, MirrorResult};
use crate::geometry::{
    a_root_commits_to_its_leaves, a_root_has_hash_length, hashes_view, of_hash_length, root_of,
    span_root, span_root_splits, span_roots, split, split_is_largest_power_below, split_point,
    trees_collide, width, width_at_64, width_is_monotone,
};
use crate::json::{json_parsed, json_tree, parse_json, JsonTree};
use crate::metadata::{a_leaf_commits_to_its_entry, leaf_of, leaves_collide, log_leaf_hash};
use crate::octets::{be_octets, octet_range, octets_have_their_count, octets_tell_values_apart};
use crate::primitives::{
    a_node_tells_its_children, base64_octets, base64_text, collides, hash_of_text, jcs, jcs_octets,
    node_hash, node_octets,
};
use crate::proofs::{
    count_reads, count_reads_over, node_bytes, reads, reads_over, saturated, spans_view, spans_within,
};
use crate::series::{Checkpoint, CheckpointView};
use crate::store::{envelopes_of, leaves_of, Store, StoreView};
use crate::text::{bytes_view, same_hash, starts_with};
use crate::tree::{
    complete_nodes, missing, whole_material_has_no_gap, TreeMaterial, TreeView, MAX_LEAVES,
};

verus! {

/// One entry of a window: its index and its envelope.
#[derive(Debug)]
pub struct EnumeratedEntry {
    /// The entry's position in the log.
    pub entry_index: u64,
    /// The entry's envelope, parsed; its canonical form is the stored bytes.
    pub envelope: serde_json::Value,
}

/// The window a response is about.
#[derive(Debug, Clone, Copy)]
pub struct RangeEnvelope {
    /// First entry index, inclusive.
    pub from_index: u64,
    /// End of the window, exclusive.
    pub to_index: u64,
}

/// A range proof as it is carried.
#[derive(Debug)]
pub struct RangeProofWire {
    /// `base64:` and the serialized proof.
    pub adaptor_form: String,
}

/// The entries of a window with the proof that they are exactly and completely it.
#[derive(Debug)]
pub struct RangeResponse {
    /// The window.
    pub range: RangeEnvelope,
    /// Its entries, in order.
    pub entries: Vec<EnumeratedEntry>,
    /// The proof.
    pub range_proof: RangeProofWire,
    /// The checkpoint the proof opens.
    pub checkpoint: Checkpoint,
}

/// What building a response read out of the store.
#[derive(Debug, Clone, Copy, PartialEq, Eq)]
pub struct RangeReadCost {
    /// Entry bytes read, those of the window.
    pub entry_bytes: u64,
    /// Stored 32-octet tree nodes read.
    pub tree_nodes: u64,
}

impl RangeReadCost {
    /// Octets read in all, sticking at the largest `u64`.
    pub fn total_bytes(&self) -> (bytes: u64)
        ensures
            bytes == saturated(self.entry_bytes + 32 * self.tree_nodes),
    {
        self.entry_bytes.saturating_add(node_bytes(self.tree_nodes))
    }
}

/// A range proof: the roots of the subtrees outside a window, left to right.
#[derive(Debug)]
pub struct RangeProof {
    /// The size of the tree.
    pub tree_size: u64,
    /// First entry index of the window, inclusive.
    pub from_index: u64,
    /// End of the window, exclusive.
    pub to_index: u64,
    /// The subtree roots.
    pub nodes: Vec<[u8; 32]>,
}

/// A [`RangeProof`] with its hashes as sequences.
#[verifier::ext_equal]
pub ghost struct RangeProofView {
    pub tree_size: u64,
    pub from_index: u64,
    pub to_index: u64,
    pub nodes: Seq<Seq<u8>>,
}

impl View for RangeProof {
    type V = RangeProofView;

    open spec fn view(&self) -> RangeProofView {
        RangeProofView {
            tree_size: self.tree_size,
            from_index: self.from_index,
            to_index: self.to_index,
            nodes: hashes_view(self.nodes@),
        }
    }
}

// ---- which subtrees are outside ----

/// Where a span lies relative to a window.
#[derive(Debug, Clone, Copy)]
pub enum Span {
    /// Wholly outside: one carried hash covers it.
    Outside,
    /// Wholly inside: recomputed from the carried leaves.
    Inside,
    /// Across a boundary: split further.
    Straddles,
}

/// Where `size` leaves from `offset` on lie relative to `[from, to)`.
pub open spec fn place_of(offset: nat, size: nat, from: nat, to: nat) -> Span {
    if offset + size <= from || offset >= to {
        Span::Outside
    } else if offset >= from && offset + size <= to {
        Span::Inside
    } else {
        Span::Straddles
    }
}

/// Where a span lies relative to a window.
fn classify(offset: u64, size: u64, from: u64, to: u64) -> (place: Span)
    requires
        offset + size <= u64::MAX,
    ensures
        place == place_of(offset as nat, size as nat, from as nat, to as nat),
{
    let end: u64 = offset + size;
    if end <= from || offset >= to {
        Span::Outside
    } else if offset >= from && end <= to {
        Span::Inside
    } else {
        Span::Straddles
    }
}

/// The maximal subtrees of a span that lie outside a window, left to right.
pub open spec fn outside_spans(offset: nat, size: nat, from: nat, to: nat) -> Seq<(nat, nat)>
    decreases size,
{
    match place_of(offset, size, from, to) {
        Span::Outside => seq![(offset, size)],
        Span::Inside => Seq::empty(),
        Span::Straddles => if size < 2 {
            Seq::empty()
        } else {
            proof {
                split_is_largest_power_below(size);
            }
            outside_spans(offset, split(size), from, to) + outside_spans(
                offset + split(size),
                (size - split(size)) as nat,
                from,
                to,
            )
        },
    }
}

/// Collect the maximal subtrees of a span that lie outside a window.
fn outside_subtrees(offset: u64, size: u64, from: u64, to: u64, out: &mut Vec<(u64, u64)>)
    requires
        offset + size <= u64::MAX,
        size >= 1,
        from < to,
    ensures
        spans_view(final(out)@) == spans_view(old(out)@) + outside_spans(
            offset as nat,
            size as nat,
            from as nat,
            to as nat,
        ),
        spans_within(spans_view(old(out)@), (offset + size) as nat) ==> spans_within(
            spans_view(final(out)@),
            (offset + size) as nat,
        ),
    decreases size,
{
    let ghost before = spans_view(out@);
    match classify(offset, size, from, to) {
        Span::Outside => {
            out.push((offset, size));
            assert(spans_view(out@) =~= before.push((offset as nat, size as nat)));
            assert(spans_view(out@) =~= before + seq![(offset as nat, size as nat)]);
        },
        Span::Inside => {
            assert(spans_view(out@) =~= before + Seq::<(nat, nat)>::empty());
        },
        Span::Straddles => {
            assert(size >= 2);
            let k: u64 = split_point(size);
            outside_subtrees(offset, k, from, to, out);
            let ghost left = spans_view(out@);
            outside_subtrees(offset + k, size - k, from, to, out);
            proof {
                let l = outside_spans(offset as nat, k as nat, from as nat, to as nat);
                let r = outside_spans(
                    (offset + k) as nat,
                    (size - k) as nat,
                    from as nat,
                    to as nat,
                );
                assert(spans_view(out@) =~= before + (l + r));
                if spans_within(before, (offset + size) as nat) {
                    spans_lie_within(offset as nat, k as nat, from as nat, to as nat);
                    spans_lie_within(
                        (offset + k) as nat,
                        (size - k) as nat,
                        from as nat,
                        to as nat,
                    );
                    assert forall|i: int| 0 <= i < spans_view(out@).len() implies (
                    #[trigger] spans_view(out@)[i]).0 + spans_view(out@)[i].1 <= offset + size by {
                        if i < before.len() {
                            assert(spans_view(out@)[i] == before[i]);
                        } else if i < before.len() + l.len() {
                            assert(spans_view(out@)[i] == l[i - before.len()]);
                        } else {
                            assert(spans_view(out@)[i] == r[i - before.len() - l.len()]);
                        }
                    }
                }
            }
        },
    }
}

/// The subtrees outside a window lie within the span they are taken from.
proof fn spans_lie_within(offset: nat, size: nat, from: nat, to: nat)
    ensures
        forall|i: int|
            0 <= i < outside_spans(offset, size, from, to).len() ==> {
                let span = #[trigger] outside_spans(offset, size, from, to)[i];
                offset <= span.0 && span.0 + span.1 <= offset + size
            },
    decreases size,
{
    if place_of(offset, size, from, to) is Straddles && size >= 2 {
        split_is_largest_power_below(size);
        let k = split(size);
        spans_lie_within(offset, k, from, to);
        spans_lie_within(offset + k, (size - k) as nat, from, to);
        let l = outside_spans(offset, k, from, to);
        let r = outside_spans(offset + k, (size - k) as nat, from, to);
        assert forall|i: int| 0 <= i < (l + r).len() implies {
            let span = #[trigger] (l + r)[i];
            offset <= span.0 && span.0 + span.1 <= offset + size
        } by {
            if i < l.len() {
                assert((l + r)[i] == l[i]);
            } else {
                assert((l + r)[i] == r[i - l.len()]);
            }
        }
    }
}

/// Whether one of a list of spans covers an index.
pub open spec fn covered(spans: Seq<(nat, nat)>, index: nat) -> bool {
    exists|i: int| 0 <= i < spans.len() && (#[trigger] spans[i]).0 <= index < spans[i].0 + spans[i].1
}

/// The window and the subtrees outside it part the tree: an index is covered by a subtree
/// outside exactly where it is not in the window, and the subtrees follow one another without
/// overlap.
pub proof fn the_window_and_the_rest_part_the_tree(offset: nat, size: nat, from: nat, to: nat)
    requires
        from < to,
    ensures
        forall|index: nat| #[trigger]
            covered(outside_spans(offset, size, from, to), index) <==> offset <= index < offset
                + size && !(from <= index < to),
        forall|i: int, j: int|
            0 <= i < j < outside_spans(offset, size, from, to).len() ==> (
            #[trigger] outside_spans(offset, size, from, to)[i]).0 + outside_spans(
                offset,
                size,
                from,
                to,
            )[i].1 <= (#[trigger] outside_spans(offset, size, from, to)[j]).0,
    decreases size,
{
    let spans = outside_spans(offset, size, from, to);
    match place_of(offset, size, from, to) {
        Span::Outside => {
            assert(spans[0] == (offset, size));
        },
        Span::Inside => {},
        Span::Straddles => {
            assert(size >= 2);
            split_is_largest_power_below(size);
            let k = split(size);
            let l = outside_spans(offset, k, from, to);
            let r = outside_spans(offset + k, (size - k) as nat, from, to);
            the_window_and_the_rest_part_the_tree(offset, k, from, to);
            the_window_and_the_rest_part_the_tree(offset + k, (size - k) as nat, from, to);
            spans_lie_within(offset, k, from, to);
            spans_lie_within(offset + k, (size - k) as nat, from, to);
            assert forall|index: nat| #[trigger] covered(spans, index) <==> offset <= index < offset
                + size && !(from <= index < to) by {
                if covered(l, index) {
                    let i = choose|i: int|
                        0 <= i < l.len() && (#[trigger] l[i]).0 <= index < l[i].0 + l[i].1;
                    assert(spans[i] == l[i]);
                }
                if covered(r, index) {
                    let i = choose|i: int|
                        0 <= i < r.len() && (#[trigger] r[i]).0 <= index < r[i].0 + r[i].1;
                    assert(spans[i + l.len()] == r[i]);
                }
                if covered(spans, index) {
                    let i = choose|i: int|
                        0 <= i < spans.len() && (#[trigger] spans[i]).0 <= index < spans[i].0
                            + spans[i].1;
                    if i < l.len() {
                        assert(l[i] == spans[i]);
                        assert(covered(l, index));
                    } else {
                        assert(r[i - l.len()] == spans[i]);
                        assert(covered(r, index));
                    }
                }
                assert(covered(l, index) <==> offset <= index < offset + k && !(from <= index
                    < to));
                assert(covered(r, index) <==> offset + k <= index < offset + size && !(from <= index
                    < to));
            }
            assert forall|i: int, j: int| 0 <= i < j < spans.len() implies (#[trigger] spans[i]).0
                + spans[i].1 <= (#[trigger] spans[j]).0 by {
                let a = if i < l.len() { l[i] } else { r[i - l.len()] };
                let b = if j < l.len() { l[j] } else { r[j - l.len()] };
                assert(spans[i] == a && spans[j] == b);
            }
        },
    }
}

// ---- what a proof opens ----

/// The root that leaves of a window and hashes outside it lead to, over a span: a carried hash
/// for a subtree outside, the leaves' own root for one inside, else the two parts combined.
pub open spec fn reopened(
    offset: nat,
    size: nat,
    from: nat,
    to: nat,
    leaves: Seq<Seq<u8>>,
    nodes: Seq<Seq<u8>>,
) -> Seq<u8>
    decreases size,
{
    match place_of(offset, size, from, to) {
        Span::Outside => nodes[0],
        Span::Inside => span_root(leaves, (offset - from) as nat, size),
        Span::Straddles => if size < 2 {
            Seq::empty()
        } else {
            proof {
                split_is_largest_power_below(size);
            }
            let k = split(size);
            let count = outside_spans(offset, k, from, to).len() as int;
            node_hash(
                reopened(offset, k, from, to, leaves, nodes.take(count)),
                reopened(
                    offset + k,
                    (size - k) as nat,
                    from,
                    to,
                    leaves,
                    nodes.skip(count),
                ),
            )
        },
    }
}

/// Whether a range proof opens a root for the leaves of its window; `None` where it is
/// structurally unusable: the window is no part of the tree, or the leaves or the hashes are
/// not as many as it asks for.
pub open spec fn range_verdict(p: RangeProofView, leaves: Seq<Seq<u8>>, root: Seq<u8>) -> Option<
    bool,
> {
    if p.from_index >= p.to_index || p.to_index > p.tree_size || leaves.len() != p.to_index
        - p.from_index || p.nodes.len() != outside_spans(
        0,
        p.tree_size as nat,
        p.from_index as nat,
        p.to_index as nat,
    ).len() {
        None
    } else {
        Some(
            reopened(
                0,
                p.tree_size as nat,
                p.from_index as nat,
                p.to_index as nat,
                leaves,
                p.nodes,
            ) == root,
        )
    }
}

/// `ahl_core::range_proof::verify`: refuses a proof that is structurally unusable, and tells of
/// any other whether the root it recomputes is the one given. The inclusion check it adds for a
/// window of one entry repeats the same computation.
#[verifier::external_body]
fn verify_range(p: &RangeProof, leaves: &Vec<[u8; 32]>, root: &[u8; 32]) -> (verdict: Result<
    bool,
    ahl_core::AhlError,
>)
    ensures
        match verdict {
            Ok(opens) => range_verdict(p@, hashes_view(leaves@), root@) == Some(opens),
            Err(_) => range_verdict(p@, hashes_view(leaves@), root@) is None,
        },
{
    let carried = ahl_core::range_proof::RangeProof {
        tree_size: p.tree_size,
        from_index: p.from_index,
        to_index: p.to_index,
        nodes: p.nodes.clone(),
    };
    ahl_core::range_proof::verify(&carried, leaves, root)
}

/// The true roots outside a window and the true leaves inside it lead to the true root.
pub proof fn true_hashes_reopen_the_root(
    leaves: Seq<Seq<u8>>,
    offset: nat,
    size: nat,
    from: nat,
    to: nat,
)
    requires
        from < to <= leaves.len(),
        size >= 1,
        offset + size <= leaves.len(),
    ensures
        reopened(
            offset,
            size,
            from,
            to,
            leaves.subrange(from as int, to as int),
            span_roots(leaves, outside_spans(offset, size, from, to)),
        ) == span_root(leaves, offset, size),
    decreases size,
{
    let window = leaves.subrange(from as int, to as int);
    match place_of(offset, size, from, to) {
        Span::Outside => {},
        Span::Inside => {
            assert(window.subrange(offset - from, offset + size - from) =~= leaves.subrange(
                offset as int,
                (offset + size) as int,
            ));
        },
        Span::Straddles => {
            assert(size >= 2);
            split_is_largest_power_below(size);
            let k = split(size);
            let l = outside_spans(offset, k, from, to);
            let r = outside_spans(offset + k, (size - k) as nat, from, to);
            let nodes = span_roots(leaves, l + r);
            assert(nodes.take(l.len() as int) =~= span_roots(leaves, l));
            assert(nodes.skip(l.len() as int) =~= span_roots(leaves, r));
            true_hashes_reopen_the_root(leaves, offset, k, from, to);
            true_hashes_reopen_the_root(leaves, offset + k, (size - k) as nat, from, to);
            span_root_splits(leaves, offset, size);
        },
    }
}

/// Whether a digest collides between the nodes at one place of what two lists of leaves reopen
/// with the same hashes outside their window.
pub open spec fn reopenings_collide(
    offset: nat,
    size: nat,
    from: nat,
    to: nat,
    a: Seq<Seq<u8>>,
    b: Seq<Seq<u8>>,
    nodes: Seq<Seq<u8>>,
) -> bool
    decreases size,
{
    match place_of(offset, size, from, to) {
        Span::Outside => false,
        Span::Inside => trees_collide(
            a.subrange(offset - from, offset - from + size),
            b.subrange(offset - from, offset - from + size),
        ),
        Span::Straddles => if size < 2 {
            false
        } else {
            proof {
                split_is_largest_power_below(size);
            }
            let k = split(size);
            let rest = (size - k) as nat;
            let count = outside_spans(offset, k, from, to).len() as int;
            let (left, right) = (nodes.take(count), nodes.skip(count));
            ||| collides(
                node_octets(
                    reopened(offset, k, from, to, a, left),
                    reopened(offset + k, rest, from, to, a, right),
                ),
                node_octets(
                    reopened(offset, k, from, to, b, left),
                    reopened(offset + k, rest, from, to, b, right),
                ),
            )
            ||| reopenings_collide(offset, k, from, to, a, b, left)
            ||| reopenings_collide(offset + k, rest, from, to, a, b, right)
        },
    }
}

/// What hashes of 32 octets reopen has 32 octets.
proof fn a_reopened_root_has_hash_length(
    offset: nat,
    size: nat,
    from: nat,
    to: nat,
    leaves: Seq<Seq<u8>>,
    nodes: Seq<Seq<u8>>,
)
    requires
        from < to,
        size >= 1,
        leaves.len() == to - from,
        of_hash_length(leaves),
        of_hash_length(nodes),
        nodes.len() == outside_spans(offset, size, from, to).len(),
    ensures
        reopened(offset, size, from, to, leaves, nodes).len() == 32,
{
    if place_of(offset, size, from, to) is Inside {
        let inside = leaves.subrange(offset - from, offset - from + size);
        assert(of_hash_length(inside));
        a_root_has_hash_length(inside);
    }
}

/// What a proof reopens over a span commits to the leaves of the window that lie in it.
proof fn a_reopened_root_commits_to_its_leaves(
    offset: nat,
    size: nat,
    from: nat,
    to: nat,
    a: Seq<Seq<u8>>,
    b: Seq<Seq<u8>>,
    nodes: Seq<Seq<u8>>,
)
    requires
        from < to,
        size >= 1,
        a.len() == to - from,
        b.len() == to - from,
        of_hash_length(a),
        of_hash_length(b),
        of_hash_length(nodes),
        nodes.len() == outside_spans(offset, size, from, to).len(),
        reopened(offset, size, from, to, a, nodes) == reopened(offset, size, from, to, b, nodes),
    ensures
        reopenings_collide(offset, size, from, to, a, b, nodes) || forall|i: int|
            #![trigger a[i]]
            #![trigger b[i]]
            0 <= i < to - from && offset <= i + from < offset + size ==> a[i] == b[i],
    decreases size,
{
    match place_of(offset, size, from, to) {
        Span::Outside => {},
        Span::Inside => {
            let at = offset - from;
            let (one, two) = (a.subrange(at, at + size), b.subrange(at, at + size));
            assert(of_hash_length(one) && of_hash_length(two));
            a_root_commits_to_its_leaves(one, two);
            assert forall|i: int|
                #![trigger a[i]]
                #![trigger b[i]]
                one == two && 0 <= i < to - from && offset <= i + from < offset + size implies a[i]
                == b[i] by {
                assert(a[i] == one[i - at] && b[i] == two[i - at]);
            }
        },
        Span::Straddles => {
            assert(size >= 2);
            split_is_largest_power_below(size);
            let k = split(size);
            let rest = (size - k) as nat;
            let count = outside_spans(offset, k, from, to).len() as int;
            let (left, right) = (nodes.take(count), nodes.skip(count));
            assert(of_hash_length(left) && of_hash_length(right));
            let a_left = reopened(offset, k, from, to, a, left);
            let a_right = reopened(offset + k, rest, from, to, a, right);
            let b_left = reopened(offset, k, from, to, b, left);
            let b_right = reopened(offset + k, rest, from, to, b, right);
            if node_octets(a_left, a_right) == node_octets(b_left, b_right) {
                a_reopened_root_has_hash_length(offset, k, from, to, a, left);
                a_reopened_root_has_hash_length(offset, k, from, to, b, left);
                a_node_tells_its_children(a_left, a_right, b_left, b_right);
                a_reopened_root_commits_to_its_leaves(offset, k, from, to, a, b, left);
                a_reopened_root_commits_to_its_leaves(offset + k, rest, from, to, a, b, right);
            } else {
                assert(collides(node_octets(a_left, a_right), node_octets(b_left, b_right)));
            }
        },
    }
}

/// A range proof is sound: two lists of leaves for which one proof opens one root are equal, or a
/// digest collides between the nodes at some place of the two recomputations.
pub proof fn a_range_proof_is_sound(
    p: RangeProofView,
    a: Seq<Seq<u8>>,
    b: Seq<Seq<u8>>,
    root: Seq<u8>,
)
    requires
        of_hash_length(p.nodes),
        of_hash_length(a),
        of_hash_length(b),
        range_verdict(p, a, root) == Some(true),
        range_verdict(p, b, root) == Some(true),
    ensures
        a == b || reopenings_collide(
            0,
            p.tree_size as nat,
            p.from_index as nat,
            p.to_index as nat,
            a,
            b,
            p.nodes,
        ),
{
    let (size, from, to) = (p.tree_size as nat, p.from_index as nat, p.to_index as nat);
    a_reopened_root_commits_to_its_leaves(0, size, from, to, a, b, p.nodes);
    if !reopenings_collide(0, size, from, to, a, b, p.nodes) {
        assert(a =~= b);
    }
}

// ---- the serialized form ----

/// A list of hashes, one after another.
pub open spec fn joined(nodes: Seq<Seq<u8>>) -> Seq<u8>
    decreases nodes.len(),
{
    if nodes.len() == 0 {
        Seq::empty()
    } else {
        joined(nodes.drop_last()) + nodes.last()
    }
}

/// The octets of a range proof: the magic `AHLRP1`, the three sizes in eight octets each, the
/// number of hashes in four, all big-endian, and the hashes.
pub open spec fn range_octets(p: RangeProofView) -> Seq<u8> {
    seq![65u8, 72u8, 76u8, 82u8, 80u8, 49u8] + be_octets(p.tree_size as nat, 8) + be_octets(
        p.from_index as nat,
        8,
    ) + be_octets(p.to_index as nat, 8) + be_octets(p.nodes.len(), 4) + joined(p.nodes)
}

/// Whether a range proof can be serialized: its hashes have 32 octets each, and their number
/// fits four.
pub open spec fn is_carried(p: RangeProofView) -> bool {
    &&& p.nodes.len() <= u32::MAX
    &&& forall|i: int| 0 <= i < p.nodes.len() ==> (#[trigger] p.nodes[i]).len() == 32
}

/// The text a range proof is carried as.
pub open spec fn range_text(p: RangeProofView) -> Seq<char> {
    "base64:"@ + base64_text(range_octets(p))
}

/// `ahl_core::range_proof::encode`: `base64:` and the base64 text of the proof's octets, which
/// decodes back to them.
#[verifier::external_body]
fn encode_range(p: &RangeProof) -> (text: String)
    requires
        p.nodes@.len() <= u32::MAX,
    ensures
        text@ == range_text(p@),
        base64_octets(text@.skip(7)) == Some(range_octets(p@)),
{
    let carried = ahl_core::range_proof::RangeProof {
        tree_size: p.tree_size,
        from_index: p.from_index,
        to_index: p.to_index,
        nodes: p.nodes.clone(),
    };
    ahl_core::range_proof::encode(&carried)
}

/// Whether a text carries a range proof.
pub open spec fn carries(text: Seq<char>, p: RangeProofView) -> bool {
    &&& is_carried(p)
    &&& starts_with(text, "base64:"@)
    &&& base64_octets(text.skip(7)) == Some(range_octets(p))
}

/// `ahl_core::range_proof::decode`: the proof that a text carries, where it carries one.
#[verifier::external_body]
fn decode_range(text: &str) -> (p: Result<RangeProof, ahl_core::AhlError>)
    ensures
        match p {
            Ok(carried) => carries(text@, carried@),
            Err(_) => forall|carried: RangeProofView| !carries(text@, carried),
        },
{
    let carried = ahl_core::range_proof::decode(text)?;
    Ok(
        RangeProof {
            tree_size: carried.tree_size,
            from_index: carried.from_index,
            to_index: carried.to_index,
            nodes: carried.nodes,
        },
    )
}

/// Hashes of 32 octets each have 32 octets each when joined.
proof fn joined_length(nodes: Seq<Seq<u8>>)
    requires
        forall|i: int| 0 <= i < nodes.len() ==> (#[trigger] nodes[i]).len() == 32,
    ensures
        joined(nodes).len() == 32 * nodes.len(),
    decreases nodes.len(),
{
    if nodes.len() > 0 {
        let rest = nodes.drop_last();
        assert forall|i: int| 0 <= i < rest.len() implies (#[trigger] rest[i]).len() == 32 by {
            assert(rest[i] == nodes[i]);
        }
        joined_length(rest);
        assert(nodes[nodes.len() - 1].len() == 32);
    }
}

/// Joined hashes tell the lists apart.
proof fn joined_tells_apart(a: Seq<Seq<u8>>, b: Seq<Seq<u8>>)
    requires
        a.len() == b.len(),
        joined(a) == joined(b),
        forall|i: int| 0 <= i < a.len() ==> (#[trigger] a[i]).len() == 32,
        forall|i: int| 0 <= i < b.len() ==> (#[trigger] b[i]).len() == 32,
    ensures
        a == b,
    decreases a.len(),
{
    if a.len() > 0 {
        let x = a.drop_last();
        let y = b.drop_last();
        assert forall|i: int| 0 <= i < x.len() implies (#[trigger] x[i]).len() == 32 && (
        #[trigger] y[i]).len() == 32 by {
            assert(x[i] == a[i] && y[i] == b[i]);
        }
        joined_length(x);
        joined_length(y);
        let cut = joined(x).len() as int;
        assert(a[a.len() - 1].len() == 32 && b[b.len() - 1].len() == 32);
        assert(joined(a).take(cut) =~= joined(x));
        assert(joined(b).take(cut) =~= joined(y));
        assert(joined(a).skip(cut) =~= a.last());
        assert(joined(b).skip(cut) =~= b.last());
        joined_tells_apart(x, y);
        assert(a =~= x.push(a.last()));
        assert(b =~= y.push(b.last()));
    } else {
        assert(a =~= b);
    }
}

/// A text carries at most one range proof: what is read back is what was written.
pub proof fn a_carried_proof_is_the_one_written(text: Seq<char>, a: RangeProofView, b: RangeProofView)
    requires
        carries(text, a),
        carries(text, b),
    ensures
        a == b,
{
    let x = range_octets(a);
    let y = range_octets(b);
    assert(octet_range(4) == 0x1_0000_0000 && octet_range(8) == 0x1_0000_0000_0000_0000) by {
        reveal_with_fuel(octet_range, 9);
    }
    octets_have_their_count(a.tree_size as nat, 8);
    octets_have_their_count(a.from_index as nat, 8);
    octets_have_their_count(a.to_index as nat, 8);
    octets_have_their_count(a.nodes.len(), 4);
    octets_have_their_count(b.tree_size as nat, 8);
    octets_have_their_count(b.from_index as nat, 8);
    octets_have_their_count(b.to_index as nat, 8);
    octets_have_their_count(b.nodes.len(), 4);
    assert(x.subrange(6, 14) =~= be_octets(a.tree_size as nat, 8));
    assert(y.subrange(6, 14) =~= be_octets(b.tree_size as nat, 8));
    assert(x.subrange(14, 22) =~= be_octets(a.from_index as nat, 8));
    assert(y.subrange(14, 22) =~= be_octets(b.from_index as nat, 8));
    assert(x.subrange(22, 30) =~= be_octets(a.to_index as nat, 8));
    assert(y.subrange(22, 30) =~= be_octets(b.to_index as nat, 8));
    assert(x.subrange(30, 34) =~= be_octets(a.nodes.len(), 4));
    assert(y.subrange(30, 34) =~= be_octets(b.nodes.len(), 4));
    assert(x.skip(34) =~= joined(a.nodes));
    assert(y.skip(34) =~= joined(b.nodes));
    octets_tell_values_apart(a.tree_size as nat, b.tree_size as nat, 8);
    octets_tell_values_apart(a.from_index as nat, b.from_index as nat, 8);
    octets_tell_values_apart(a.to_index as nat, b.to_index as nat, 8);
    octets_tell_values_apart(a.nodes.len(), b.nodes.len(), 4);
    joined_tells_apart(a.nodes, b.nodes);
}

/// A range proof carries at most two hashes per level of the tree, and one more.
pub proof fn few_subtrees_are_outside(offset: nat, size: nat, from: nat, to: nat, level: nat)
    requires
        from < to,
        1 <= size <= width(level),
    ensures
        outside_spans(offset, size, from, to).len() <= 2 * level + 1,
        from <= offset || to >= offset + size ==> outside_spans(offset, size, from, to).len()
            <= level + 1,
    decreases level,
{
    if place_of(offset, size, from, to) is Straddles {
        assert(size >= 2);
        let power = split_is_largest_power_below(size);
        assert(level >= 1) by {
            if level == 0 {
                assert(width(0) == 1);
            }
        }
        if power >= level {
            width_is_monotone(level, power);
        }
        width_is_monotone(power, (level - 1) as nat);
        let k = split(size);
        few_subtrees_are_outside(offset, k, from, to, (level - 1) as nat);
        few_subtrees_are_outside(offset + k, (size - k) as nat, from, to, (level - 1) as nat);
    }
}

// ---- building a response ----

/// The sum of the lengths of a list of byte strings.
pub open spec fn total_length(list: Seq<Seq<u8>>) -> nat
    decreases list.len(),
{
    if list.len() == 0 {
        0
    } else {
        total_length(list.drop_last()) + list.last().len()
    }
}

/// The documents of a list of byte strings, where every one holds one.
pub open spec fn documents_of(list: Seq<Seq<u8>>) -> Option<Seq<JsonTree>>
    decreases list.len(),
{
    if list.len() == 0 {
        Some(Seq::empty())
    } else {
        match (documents_of(list.drop_last()), json_parsed(list.last())) {
            (Some(documents), Some(document)) => Some(documents.push(document)),
            _ => None,
        }
    }
}

/// A byte string that holds no document leaves the list without documents.
proof fn one_bad_document_spoils_the_list(list: Seq<Seq<u8>>, count: int)
    requires
        0 <= count <= list.len(),
        documents_of(list.take(count)) is None,
    ensures
        documents_of(list) is None,
    decreases list.len(),
{
    if count < list.len() {
        assert(list.drop_last().take(count) =~= list.take(count));
        one_bad_document_spoils_the_list(list.drop_last(), count);
    } else {
        assert(list.take(count) =~= list);
    }
}

/// What a response holds: the window, its documents by index, the text of its proof and the
/// checkpoint.
pub ghost struct RangeResponseView {
    pub from_index: u64,
    pub to_index: u64,
    pub indexes: Seq<u64>,
    pub documents: Seq<JsonTree>,
    pub adaptor_form: Seq<char>,
    pub checkpoint: CheckpointView,
}

/// The indexes of a list of enumerated entries.
pub open spec fn entry_indexes(entries: Seq<EnumeratedEntry>) -> Seq<u64> {
    Seq::new(entries.len(), |i: int| entries[i].entry_index)
}

/// The documents of a list of enumerated entries.
pub open spec fn entry_documents(entries: Seq<EnumeratedEntry>) -> Seq<JsonTree> {
    Seq::new(entries.len(), |i: int| json_tree(entries[i].envelope))
}

impl View for RangeResponse {
    type V = RangeResponseView;

    open spec fn view(&self) -> RangeResponseView {
        RangeResponseView {
            from_index: self.range.from_index,
            to_index: self.range.to_index,
            indexes: entry_indexes(self.entries@),
            documents: entry_documents(self.entries@),
            adaptor_form: self.range_proof.adaptor_form@,
            checkpoint: self.checkpoint@,
        }
    }
}

/// `count` consecutive indexes from `from` on.
pub open spec fn indexes_from(from: u64, count: nat) -> Seq<u64> {
    Seq::new(count, |i: int| (from + i) as u64)
}

/// The range proof of a window of the first `size` leaves.
pub open spec fn proof_of(leaves: Seq<Seq<u8>>, size: u64, from: u64, to: u64) -> RangeProofView {
    RangeProofView {
        tree_size: size,
        from_index: from,
        to_index: to,
        nodes: span_roots(leaves, outside_spans(0, size as nat, from as nat, to as nat)),
    }
}

impl StoreView {
    /// Whether the entries of `[from, to)` that hold a document are its canonical form.
    pub open spec fn canonical_over(self, from: u64, to: u64) -> bool {
        forall|i: int|
            from <= i < to && 0 <= i < self.entries.len() && json_parsed(
                (#[trigger] self.entries[i]).envelope,
            ) is Some ==> jcs_octets(json_parsed(self.entries[i].envelope)->0)
                == self.entries[i].envelope
    }

    /// The response for a window under a checkpoint, or why there is none: the log is not held
    /// that far, the window is no part of it, the root text is none, a tree node is lost, the
    /// root is not that of the entries, or a stored entry is no document.
    pub open spec fn enumerating(self, cp: CheckpointView, from: u64, to: u64) -> Result<
        RangeResponseView,
        Fault,
    > {
        let size = cp.tree_size;
        if size > MAX_LEAVES {
            Err(Fault::IndexOverflow { what: "to_index"@ })
        } else if size > self.entries.len() {
            Err(Fault::IncompleteEntries { have: self.entries.len() as u64, need: size })
        } else if from >= to || to > size {
            Err(Fault::InvalidRange { from_index: from, to_index: to, tree_size: size })
        } else {
            match hash_of_text(cp.root_hash) {
                None => Err(Fault::Ahl),
                Some(root) => match self.tree.opened(0, size as nat) {
                    Err(fault) => Err(fault),
                    Ok(opened) => if opened != root {
                        Err(Fault::CheckpointRootMismatch { tree_size: size })
                    } else {
                        match self.tree.gap_over(
                            outside_spans(0, size as nat, from as nat, to as nat),
                        ) {
                            Some(node) => Err(missing(node)),
                            None => match documents_of(
                                envelopes_of(self.window(from as int, to as int)),
                            ) {
                                None => Err(Fault::Json),
                                Some(documents) => Ok(
                                    RangeResponseView {
                                        from_index: from,
                                        to_index: to,
                                        indexes: indexes_from(from, documents.len()),
                                        documents,
                                        adaptor_form: range_text(
                                            proof_of(self.tree.leaves, size, from, to),
                                        ),
                                        checkpoint: cp,
                                    },
                                ),
                            },
                        }
                    },
                },
            }
        }
    }
}

/// Open the roots over a list of spans.
fn open_spans(tree: &TreeMaterial, spans: &Vec<(u64, u64)>) -> (opened: MirrorResult<Vec<[u8; 32]>>)
    requires
        tree.wf(),
        spans_within(spans_view(spans@), tree@.leaves.len()),
        forall|i: int| 0 <= i < spans@.len() ==> (#[trigger] spans@[i]).1 >= 1,
    ensures
        match opened {
            Ok(nodes) => tree@.gap_over(spans_view(spans@)) is None && hashes_view(nodes@)
                == span_roots(tree@.leaves, spans_view(spans@)),
            Err(error) => tree@.gap_over(spans_view(spans@)) matches Some(node) && error@
                == missing(node),
        },
{
    let ghost listed = spans_view(spans@);
    let mut nodes: Vec<[u8; 32]> = Vec::new();
    let mut i: usize = 0;
    proof {
        assert(listed.skip(0) =~= listed);
        assert(hashes_view(nodes@) =~= span_roots(tree@.leaves, listed.take(0)));
    }
    while i < spans.len()
        invariant
            tree.wf(),
            i <= spans@.len(),
            listed == spans_view(spans@),
            spans_within(listed, tree@.leaves.len()),
            forall|k: int| 0 <= k < spans@.len() ==> (#[trigger] spans@[k]).1 >= 1,
            hashes_view(nodes@) == span_roots(tree@.leaves, listed.take(i as int)),
            tree@.gap_over(listed) == tree@.gap_over(listed.skip(i as int)),
        decreases spans.len() - i,
    {
        let ghost before = hashes_view(nodes@);
        proof {
            assert(listed[i as int].0 + listed[i as int].1 <= tree@.leaves.len());
            assert(spans@[i as int].1 >= 1);
            assert(listed.skip(i as int).drop_first() =~= listed.skip(i + 1));
            assert(listed.skip(i as int)[0] == listed[i as int]);
        }
        let node: [u8; 32] = tree.open(spans[i].0, spans[i].1)?;
        nodes.push(node);
        proof {
            assert(hashes_view(nodes@) =~= before.push(node@));
            assert(span_roots(tree@.leaves, listed.take(i + 1)) =~= before.push(node@));
        }
        i += 1;
    }
    proof {
        assert(listed.take(i as int) =~= listed);
    }
    Ok(nodes)
}

/// Parse the entries of a window, with the sum of their lengths.
fn parse_window(window: &Vec<Vec<u8>>, from_index: u64) -> (parsed: MirrorResult<
    (Vec<EnumeratedEntry>, u64),
>)
    requires
        from_index + window@.len() <= u64::MAX,
    ensures
        match parsed {
            Ok((entries, entry_bytes)) => {
                &&& documents_of(bytes_view(window@)) == Some(entry_documents(entries@))
                &&& entry_indexes(entries@) == indexes_from(from_index, window@.len())
                &&& entry_bytes == saturated(total_length(bytes_view(window@)) as int)
            },
            Err(error) => documents_of(bytes_view(window@)) is None && error@ == Fault::Json,
        },
{
    let ghost listed = bytes_view(window@);
    let mut entries: Vec<EnumeratedEntry> = Vec::new();
    let mut entry_bytes: u64 = 0;
    let mut i: usize = 0;
    proof {
        assert(entry_documents(entries@) =~= Seq::<JsonTree>::empty());
        assert(entry_indexes(entries@) =~= indexes_from(from_index, 0));
    }
    while i < window.len()
        invariant
            i <= window@.len(),
            from_index + window@.len() <= u64::MAX,
            listed == bytes_view(window@),
            documents_of(listed.take(i as int)) == Some(entry_documents(entries@)),
            entry_indexes(entries@) == indexes_from(from_index, i as nat),
            entry_bytes == saturated(total_length(listed.take(i as int)) as int),
        decreases window.len() - i,
    {
        proof {
            assert(listed.take(i + 1).drop_last() =~= listed.take(i as int));
            assert(listed.take(i + 1).last() == window@[i as int]@);
        }
        entry_bytes = entry_bytes.saturating_add(window[i].len() as u64);
        let envelope: serde_json::Value = match parse_json(window[i].as_slice()) {
            Ok(envelope) => envelope,
            Err(error) => {
                proof {
                    one_bad_document_spoils_the_list(listed, i + 1);
                }
                return Err(error);
            },
        };
        let ghost documents = entry_documents(entries@);
        let ghost indexes = entry_indexes(entries@);
        let entry_index: u64 = from_index + i as u64;
        entries.push(EnumeratedEntry { entry_index, envelope });
        proof {
            assert(entry_documents(entries@) =~= documents.push(json_tree(envelope)));
            assert(entry_indexes(entries@) =~= indexes.push(entry_index));
            assert(indexes_from(from_index, (i + 1) as nat) =~= indexes.push(entry_index));
        }
        i += 1;
    }
    proof {
        assert(listed.take(i as int) =~= listed);
    }
    Ok((entries, entry_bytes))
}

/// The tree nodes that building a response reads: those that open the root, those that open
/// the subtrees outside the window, and the window's leaves.
pub open spec fn nodes_read(size: u64, from: u64, to: u64) -> int {
    saturated(
        reads(0, size as nat) + reads_over(
            outside_spans(0, size as nat, from as nat, to as nat),
        ) + (to - from),
    )
}

/// Build the response for a window under a checkpoint, with what it read. The proof is
/// verified against the checkpoint's root before it is handed out.
pub fn build_range_response_measured(
    store: &Store,
    checkpoint: &Checkpoint,
    from_index: u64,
    to_index: u64,
) -> (built: MirrorResult<(RangeResponse, RangeReadCost)>)
    requires
        store.wf(),
    ensures
        match built {
            Ok((response, cost)) => {
                &&& gives(store@.enumerating(checkpoint@, from_index, to_index), response@)
                &&& carries(
                    response@.adaptor_form,
                    proof_of(store@.tree.leaves, checkpoint.tree_size, from_index, to_index),
                )
                &&& store@.canonical_over(from_index, to_index) ==> gives(response@.judged(), true)
                &&& cost.entry_bytes == saturated(
                    total_length(
                        envelopes_of(store@.window(from_index as int, to_index as int)),
                    ) as int,
                )
                &&& cost.tree_nodes == nodes_read(checkpoint.tree_size, from_index, to_index)
            },
            Err(error) => refuses(store@.enumerating(checkpoint@, from_index, to_index), error),
        },
{
    let size: u64 = checkpoint.tree_size;
    let have: u64 = store.count_entries(0, size)?;
    if have != size {
        return Err(MirrorError::IncompleteEntries { have, need: size });
    }
    if from_index >= to_index || to_index > size {
        return Err(MirrorError::InvalidRange { from_index, to_index, tree_size: size });
    }
    let root: [u8; 32] = match ahl_core::parse_hash_hex(checkpoint.root_hash.as_str()) {
        Ok(root) => root,
        Err(error) => {
            return Err(MirrorError::Ahl(error));
        },
    };
    let tree: &TreeMaterial = store.tree();
    let opened: [u8; 32] = tree.open(0, size)?;
    if !same_hash(&opened, &root) {
        return Err(MirrorError::CheckpointRootMismatch { tree_size: size });
    }
    let mut spans: Vec<(u64, u64)> = Vec::new();
    outside_subtrees(0, size, from_index, to_index, &mut spans);
    let ghost outside = outside_spans(0, size as nat, from_index as nat, to_index as nat);
    proof {
        assert(spans_view(spans@) =~= outside);
        spans_are_not_empty(0, size as nat, from_index as nat, to_index as nat);
        assert forall|i: int| 0 <= i < spans@.len() implies (#[trigger] spans@[i]).1 >= 1 by {
            assert(spans_view(spans@)[i] == outside[i]);
        }
        assert(spans_within(spans_view(spans@), tree@.leaves.len())) by {
            assert forall|i: int| 0 <= i < spans_view(spans@).len() implies (
            #[trigger] spans_view(spans@)[i]).0 + spans_view(spans@)[i].1
                <= tree@.leaves.len() by {
                assert(spans_within(spans_view(spans@), size as nat));
            }
        }
    }
    let nodes: Vec<[u8; 32]> = open_spans(tree, &spans)?;
    let tree_nodes: u64 = count_reads(0, size).saturating_add(
        count_reads_over(&spans),
    ).saturating_add(to_index - from_index);
    let carried = RangeProof { tree_size: size, from_index, to_index, nodes };
    let leaves: Vec<[u8; 32]> = store.leaf_hashes_range(from_index, to_index)?;
    proof {
        store.is_valid();
        the_built_proof_opens_the_root(store@, size, from_index, to_index);
        assert(hashes_view(leaves@) == leaves_of(store@.window(from_index as int, to_index as int)));
    }
    match verify_range(&carried, &leaves, &root) {
        Ok(opens) => {
            if !opens {
                return Err(MirrorError::CheckpointRootMismatch { tree_size: size });
            }
        },
        Err(error) => {
            return Err(MirrorError::Ahl(error));
        },
    }
    let window: Vec<Vec<u8>> = store.get_entries_range(from_index, to_index)?;
    assert(window@.len() == bytes_view(window@).len());
    let (entries, entry_bytes): (Vec<EnumeratedEntry>, u64) = parse_window(&window, from_index)?;
    proof {
        width_at_64();
        few_subtrees_are_outside(0, size as nat, from_index as nat, to_index as nat, 64);
        assert(carried.nodes@.len() == hashes_view(carried.nodes@).len());
        documents_are_parsed(bytes_view(window@));
    }
    let response = RangeResponse {
        range: RangeEnvelope { from_index, to_index },
        entries,
        range_proof: RangeProofWire { adaptor_form: encode_range(&carried) },
        checkpoint: checkpoint.clone(),
    };
    proof {
        let text = response.range_proof.adaptor_form@;
        reveal_strlit("base64:");
        assert(text.take(7) =~= "base64:"@);
        assert forall|i: int| 0 <= i < carried@.nodes.len() implies (
        #[trigger] carried@.nodes[i]).len() == 32 by {
            assert(carried@.nodes[i] == carried.nodes@[i]@);
        }
        if store@.canonical_over(from_index, to_index) {
            a_built_response_verifies(store@, checkpoint@, from_index, to_index);
        }
    }
    Ok((response, RangeReadCost { entry_bytes, tree_nodes }))
}

/// Build the response for a window under a checkpoint.
pub fn build_range_response(store: &Store, checkpoint: &Checkpoint, from_index: u64, to_index: u64) -> (built:
    MirrorResult<RangeResponse>)
    requires
        store.wf(),
    ensures
        match built {
            Ok(response) => {
                &&& gives(store@.enumerating(checkpoint@, from_index, to_index), response@)
                &&& store@.canonical_over(from_index, to_index) ==> gives(response@.judged(), true)
            },
            Err(error) => refuses(store@.enumerating(checkpoint@, from_index, to_index), error),
        },
{
    match build_range_response_measured(store, checkpoint, from_index, to_index) {
        Ok((response, _)) => Ok(response),
        Err(error) => Err(error),
    }
}

/// No subtree outside a window is empty.
proof fn spans_are_not_empty(offset: nat, size: nat, from: nat, to: nat)
    requires
        size >= 1,
        from < to,
    ensures
        forall|i: int|
            0 <= i < outside_spans(offset, size, from, to).len() ==> (#[trigger] outside_spans(
                offset,
                size,
                from,
                to,
            )[i]).1 >= 1,
    decreases size,
{
    if place_of(offset, size, from, to) is Straddles && size >= 2 {
        split_is_largest_power_below(size);
        let k = split(size);
        spans_are_not_empty(offset, k, from, to);
        spans_are_not_empty(offset + k, (size - k) as nat, from, to);
        let l = outside_spans(offset, k, from, to);
        let r = outside_spans(offset + k, (size - k) as nat, from, to);
        assert forall|i: int| 0 <= i < (l + r).len() implies (#[trigger] (l + r)[i]).1 >= 1 by {
            if i < l.len() {
                assert((l + r)[i] == l[i]);
            } else {
                assert((l + r)[i] == r[i - l.len()]);
            }
        }
    }
}

/// The proof of a window of a store opens the root over the store's entries.
proof fn the_built_proof_opens_the_root(store: StoreView, size: u64, from: u64, to: u64)
    requires
        store.valid(),
        from < to <= size <= store.entries.len(),
    ensures
        range_verdict(
            proof_of(store.tree.leaves, size, from, to),
            leaves_of(store.window(from as int, to as int)),
            span_root(store.tree.leaves, 0, size as nat),
        ) == Some(true),
        leaves_of(store.window(from as int, to as int)) == store.tree.leaves.subrange(
            from as int,
            to as int,
        ),
{
    assert(leaves_of(store.window(from as int, to as int)) =~= store.tree.leaves.subrange(
        from as int,
        to as int,
    ));
    true_hashes_reopen_the_root(store.tree.leaves, 0, size as nat, from as nat, to as nat);
}

// ---- verifying a response ----

/// What is wrong with the first entry of a response that is out of place.
pub open spec fn misplaced(from: u64, to: u64, size: u64, indexes: Seq<u64>) -> Option<Fault>
    decreases indexes.len(),
{
    if indexes.len() == 0 {
        None
    } else {
        match misplaced(from, to, size, indexes.drop_last()) {
            Some(fault) => Some(fault),
            None => if from + indexes.len() - 1 > u64::MAX {
                Some(Fault::IndexOverflow { what: "entry_index"@ })
            } else if indexes.last() != from + indexes.len() - 1 {
                Some(Fault::InvalidRange { from_index: from, to_index: to, tree_size: size })
            } else {
                None
            },
        }
    }
}

/// The leaf hashes of a list of documents, by their canonical forms.
pub open spec fn document_leaves(documents: Seq<JsonTree>) -> Seq<Seq<u8>> {
    Seq::new(documents.len(), |i: int| leaf_of(jcs_octets(documents[i])))
}

/// Whether a carried proof opens the checkpoint's root for leaves: refused where it is about
/// another window or tree, where the root text is none, or where it is structurally unusable.
pub open spec fn range_judged(
    p: RangeProofView,
    from: u64,
    to: u64,
    cp: CheckpointView,
    leaves: Seq<Seq<u8>>,
) -> Result<bool, Fault> {
    if p.tree_size != cp.tree_size || p.from_index != from || p.to_index != to {
        Err(Fault::InvalidRange { from_index: from, to_index: to, tree_size: cp.tree_size })
    } else {
        match hash_of_text(cp.root_hash) {
            None => Err(Fault::Ahl),
            Some(root) => match range_verdict(p, leaves, root) {
                None => Err(Fault::Ahl),
                Some(opens) => Ok(opens),
            },
        }
    }
}

/// Judge a carried proof over the leaves of a window under a checkpoint.
pub fn judge_range(
    carried: &RangeProof,
    range: &RangeEnvelope,
    checkpoint: &Checkpoint,
    leaves: &Vec<[u8; 32]>,
) -> (judged: MirrorResult<bool>)
    ensures
        match judged {
            Ok(opens) => gives(
                range_judged(
                    carried@,
                    range.from_index,
                    range.to_index,
                    checkpoint@,
                    hashes_view(leaves@),
                ),
                opens,
            ),
            Err(error) => refuses(
                range_judged(
                    carried@,
                    range.from_index,
                    range.to_index,
                    checkpoint@,
                    hashes_view(leaves@),
                ),
                error,
            ),
        },
{
    if carried.tree_size != checkpoint.tree_size || carried.from_index != range.from_index
        || carried.to_index != range.to_index {
        return Err(
            MirrorError::InvalidRange {
                from_index: range.from_index,
                to_index: range.to_index,
                tree_size: checkpoint.tree_size,
            },
        );
    }
    let root: [u8; 32] = match ahl_core::parse_hash_hex(checkpoint.root_hash.as_str()) {
        Ok(root) => root,
        Err(error) => {
            return Err(MirrorError::Ahl(error));
        },
    };
    match verify_range(carried, leaves, &root) {
        Ok(opens) => Ok(opens),
        Err(error) => Err(MirrorError::Ahl(error)),
    }
}

impl RangeResponseView {
    /// Whether a response proves itself, or why that cannot be judged: an entry is out of
    /// place, the proof text carries no proof, or the proof does not judge these entries.
    pub open spec fn judged(self) -> Result<bool, Fault> {
        match misplaced(self.from_index, self.to_index, self.checkpoint.tree_size, self.indexes) {
            Some(fault) => Err(fault),
            None => if exists|p: RangeProofView| carries(self.adaptor_form, p) {
                range_judged(
                    choose|p: RangeProofView| carries(self.adaptor_form, p),
                    self.from_index,
                    self.to_index,
                    self.checkpoint,
                    document_leaves(self.documents),
                )
            } else {
                Err(Fault::Ahl)
            },
        }
    }
}

/// Refuse a response whose entries are not consecutive from the start of its window.
pub fn check_contiguous(response: &RangeResponse) -> (checked: MirrorResult<()>)
    ensures
        match checked {
            Ok(()) => misplaced(
                response@.from_index,
                response@.to_index,
                response@.checkpoint.tree_size,
                response@.indexes,
            ) is None,
            Err(error) => misplaced(
                response@.from_index,
                response@.to_index,
                response@.checkpoint.tree_size,
                response@.indexes,
            ) == Some(error@),
        },
{
    let from_index: u64 = response.range.from_index;
    let to_index: u64 = response.range.to_index;
    let tree_size: u64 = response.checkpoint.tree_size;
    let ghost indexes = response@.indexes;
    let mut i: usize = 0;
    while i < response.entries.len()
        invariant
            i <= response.entries@.len(),
            indexes == response@.indexes,
            indexes == entry_indexes(response.entries@),
            from_index == response@.from_index,
            to_index == response@.to_index,
            tree_size == response@.checkpoint.tree_size,
            misplaced(from_index, to_index, tree_size, indexes.take(i as int)) is None,
        decreases response.entries.len() - i,
    {
        proof {
            assert(indexes.take(i + 1).drop_last() =~= indexes.take(i as int));
            assert(indexes.take(i + 1).last() == response.entries@[i as int].entry_index);
            if misplaced(from_index, to_index, tree_size, indexes.take(i + 1)) is Some {
                a_misplaced_entry_stands(from_index, to_index, tree_size, indexes, i + 1);
            }
        }
        match from_index.checked_add(i as u64) {
            None => {
                return Err(MirrorError::IndexOverflow { what: "entry_index" });
            },
            Some(expected) => {
                if response.entries[i].entry_index != expected {
                    return Err(MirrorError::InvalidRange { from_index, to_index, tree_size });
                }
            },
        }
        i += 1;
    }
    proof {
        assert(indexes.take(i as int) =~= indexes);
    }
    Ok(())
}

/// What is out of place within a prefix of the entries is what is out of place.
proof fn a_misplaced_entry_stands(from: u64, to: u64, size: u64, indexes: Seq<u64>, count: int)
    requires
        0 <= count <= indexes.len(),
        misplaced(from, to, size, indexes.take(count)) is Some,
    ensures
        misplaced(from, to, size, indexes) == misplaced(from, to, size, indexes.take(count)),
    decreases indexes.len(),
{
    if count < indexes.len() {
        assert(indexes.drop_last().take(count) =~= indexes.take(count));
        a_misplaced_entry_stands(from, to, size, indexes.drop_last(), count);
    } else {
        assert(indexes.take(count) =~= indexes);
    }
}

/// Verify a response from itself alone: its entries are consecutive, and its proof opens its
/// checkpoint's root for exactly their leaves.
pub fn verify_range_response(response: &RangeResponse) -> (verdict: MirrorResult<bool>)
    ensures
        match verdict {
            Ok(opens) => gives(response@.judged(), opens),
            Err(error) => refuses(response@.judged(), error),
        },
{
    check_contiguous(response)?;
    let mut leaves: Vec<[u8; 32]> = Vec::new();
    let mut i: usize = 0;
    let ghost documents = response@.documents;
    while i < response.entries.len()
        invariant
            i <= response.entries@.len(),
            documents == entry_documents(response.entries@),
            hashes_view(leaves@) == document_leaves(documents).take(i as int),
        decreases response.entries.len() - i,
    {
        let canonical: Vec<u8> = jcs(&response.entries[i].envelope);
        let leaf: [u8; 32] = log_leaf_hash(canonical.as_slice());
        let ghost before = hashes_view(leaves@);
        leaves.push(leaf);
        proof {
            assert(hashes_view(leaves@) =~= before.push(leaf@));
            assert(document_leaves(documents).take(i + 1) =~= before.push(leaf@));
        }
        i += 1;
    }
    assert(hashes_view(leaves@) =~= document_leaves(documents));
    match decode_range(response.range_proof.adaptor_form.as_str()) {
        Err(error) => Err(MirrorError::Ahl(error)),
        Ok(carried) => {
            proof {
                let chosen = choose|p: RangeProofView| carries(response@.adaptor_form, p);
                a_carried_proof_is_the_one_written(response@.adaptor_form, carried@, chosen);
            }
            judge_range(&carried, &response.range, &response.checkpoint, &leaves)
        },
    }
}

/// A response that a store builds verifies: where the entries of its window are their own
/// canonical forms, whoever reads the response finds that its proof opens the checkpoint's
/// root for exactly those entries.
pub proof fn a_built_response_verifies(store: StoreView, cp: CheckpointView, from: u64, to: u64)
    requires
        store.valid(),
        store.enumerating(cp, from, to) is Ok,
        store.canonical_over(from, to),
        carries(
            store.enumerating(cp, from, to)->Ok_0.adaptor_form,
            proof_of(store.tree.leaves, cp.tree_size, from, to),
        ),
    ensures
        store.enumerating(cp, from, to)->Ok_0.judged() == Ok::<bool, Fault>(true),
{
    let response = store.enumerating(cp, from, to)->Ok_0;
    let p = proof_of(store.tree.leaves, cp.tree_size, from, to);
    let chosen = choose|q: RangeProofView| carries(response.adaptor_form, q);
    a_carried_proof_is_the_one_written(response.adaptor_form, p, chosen);
    the_built_proof_opens_the_root(store, cp.tree_size, from, to);
    let window = envelopes_of(store.window(from as int, to as int));
    documents_are_parsed(window);
    assert(document_leaves(response.documents) =~= leaves_of(store.window(from as int, to as int)))
        by {
        assert forall|i: int| 0 <= i < window.len() implies #[trigger] document_leaves(
            response.documents,
        )[i] == leaves_of(store.window(from as int, to as int))[i] by {
            assert(window[i] == store.entries[from + i].envelope);
        }
    }
    nothing_is_misplaced(from, to, cp.tree_size, response.documents.len());
}

/// The documents of a list are those its byte strings hold.
proof fn documents_are_parsed(list: Seq<Seq<u8>>)
    requires
        documents_of(list) is Some,
    ensures
        documents_of(list)->0.len() == list.len(),
        forall|i: int|
            0 <= i < list.len() ==> json_parsed(#[trigger] list[i]) == Some(
                documents_of(list)->0[i],
            ),
    decreases list.len(),
{
    if list.len() > 0 {
        let rest = list.drop_last();
        documents_are_parsed(rest);
        assert forall|i: int| 0 <= i < list.len() implies json_parsed(#[trigger] list[i]) == Some(
            documents_of(list)->0[i],
        ) by {
            if i < rest.len() {
                assert(rest[i] == list[i]);
            }
        }
    }
}

/// Consecutive indexes are in place.
proof fn nothing_is_misplaced(from: u64, to: u64, size: u64, count: nat)
    requires
        from + count <= u64::MAX,
    ensures
        misplaced(from, to, size, indexes_from(from, count)) is None,
    decreases count,
{
    if count > 0 {
        nothing_is_misplaced(from, to, size, (count - 1) as nat);
        assert(indexes_from(from, count).drop_last() =~= indexes_from(from, (count - 1) as nat));
    }
}

/// Entries are in place exactly where their indexes are consecutive from the start of the window.
proof fn only_consecutive_indexes_are_in_place(from: u64, to: u64, size: u64, indexes: Seq<u64>)
    requires
        from + indexes.len() <= u64::MAX,
    ensures
        misplaced(from, to, size, indexes) == if indexes == indexes_from(from, indexes.len()) {
            None
        } else {
            Some(Fault::InvalidRange { from_index: from, to_index: to, tree_size: size })
        },
    decreases indexes.len(),
{
    let whole = indexes_from(from, indexes.len());
    if indexes.len() == 0 {
        assert(indexes =~= whole);
    } else {
        let rest = indexes.drop_last();
        only_consecutive_indexes_are_in_place(from, to, size, rest);
        assert(whole.drop_last() =~= indexes_from(from, rest.len()));
        if indexes.last() == from + rest.len() && rest == whole.drop_last() {
            assert(indexes =~= rest.push(indexes.last()));
            assert(whole =~= whole.drop_last().push(whole.last()));
        }
    }
}

impl RangeResponseView {
    /// Whether a digest collides between two responses that carry the same proof: between two
    /// entries at one place of the window, or between the nodes at one place of what their
    /// leaves reopen.
    pub open spec fn collides_with(self, other: RangeResponseView) -> bool {
        let p = choose|p: RangeProofView| carries(self.adaptor_form, p);
        ||| exists|i: int|
            0 <= i < self.documents.len() && leaves_collide(
                jcs_octets(#[trigger] self.documents[i]),
                jcs_octets(other.documents[i]),
            )
        ||| reopenings_collide(
            0,
            p.tree_size as nat,
            p.from_index as nat,
            p.to_index as nat,
            document_leaves(self.documents),
            document_leaves(other.documents),
            p.nodes,
        )
    }
}

/// A changed response is found out. Of a response that proves itself, another that keeps the
/// window, the proof, the checkpoint and the number of entries is refused where it moves an
/// entry; where it keeps every index, it is judged, and proves itself only if every entry has the
/// canonical bytes it had, or a digest collides.
pub proof fn a_changed_response_is_found_out(a: RangeResponseView, b: RangeResponseView)
    requires
        a.judged() == Ok::<bool, Fault>(true),
        a.indexes.len() == a.documents.len(),
        b.from_index == a.from_index,
        b.to_index == a.to_index,
        b.adaptor_form == a.adaptor_form,
        b.checkpoint == a.checkpoint,
        b.documents.len() == a.documents.len(),
        b.indexes.len() == b.documents.len(),
    ensures
        b.indexes != a.indexes ==> b.judged() == Err::<bool, Fault>(
            Fault::InvalidRange {
                from_index: b.from_index,
                to_index: b.to_index,
                tree_size: b.checkpoint.tree_size,
            },
        ),
        b.indexes == a.indexes ==> b.judged() is Ok,
        forall|i: int|
            b.indexes == a.indexes && 0 <= i < a.documents.len() && jcs_octets(
                #[trigger] a.documents[i],
            ) != jcs_octets(b.documents[i]) ==> b.judged() == Ok::<bool, Fault>(false)
                || a.collides_with(b),
{
    let p = choose|p: RangeProofView| carries(a.adaptor_form, p);
    let (one, two) = (document_leaves(a.documents), document_leaves(b.documents));
    let size = a.checkpoint.tree_size;
    only_consecutive_indexes_are_in_place(a.from_index, a.to_index, size, a.indexes);
    only_consecutive_indexes_are_in_place(b.from_index, b.to_index, size, b.indexes);
    if b.judged() == Ok::<bool, Fault>(true) {
        let root = hash_of_text(a.checkpoint.root_hash)->0;
        a_range_proof_is_sound(p, one, two, root);
        assert forall|i: int|
            0 <= i < a.documents.len() && jcs_octets(#[trigger] a.documents[i]) != jcs_octets(
                b.documents[i],
            ) implies a.collides_with(b) by {
            if one == two {
                assert(one[i] == two[i]);
                a_leaf_commits_to_its_entry(
                    jcs_octets(a.documents[i]),
                    jcs_octets(b.documents[i]),
                );
            }
        }
    }
}

/// When a window is enumerated, in full: the entries reach the checkpoint, the window is a
/// non-empty part of it, its root is a hash text and the root over the entries, and every entry of
/// the window is a document. The response is then about exactly that window and checkpoint, with
/// the document of each entry of the window at its own index. Every other request is refused for
/// the first of these that fails.
pub proof fn a_window_is_enumerated_whole(
    store: StoreView,
    cp: CheckpointView,
    from: u64,
    to: u64,
)
    requires
        store.valid(),
        store.tree.held == complete_nodes(store.entries.len()),
    ensures
        ({
            let size = cp.tree_size;
            let built = store.enumerating(cp, from, to);
            let root = root_of(Seq::new(size as nat, |i: int| leaf_of(store.entries[i].envelope)));
            if size > MAX_LEAVES {
                built == Err::<RangeResponseView, Fault>(Fault::IndexOverflow { what: "to_index"@ })
            } else if size > store.entries.len() {
                built == Err::<RangeResponseView, Fault>(
                    Fault::IncompleteEntries { have: store.entries.len() as u64, need: size },
                )
            } else if from >= to || to > size {
                built == Err::<RangeResponseView, Fault>(
                    Fault::InvalidRange { from_index: from, to_index: to, tree_size: size },
                )
            } else if hash_of_text(cp.root_hash) is None {
                built == Err::<RangeResponseView, Fault>(Fault::Ahl)
            } else if hash_of_text(cp.root_hash) != Some(root) {
                built == Err::<RangeResponseView, Fault>(
                    Fault::CheckpointRootMismatch { tree_size: size },
                )
            } else {
                match built {
                    Ok(response) => {
                        &&& response.from_index == from
                        &&& response.to_index == to
                        &&& response.checkpoint == cp
                        &&& response.indexes.len() == to - from
                        &&& response.documents.len() == to - from
                        &&& forall|i: int|
                            0 <= i < to - from ==> #[trigger] response.indexes[i] == from + i
                        &&& forall|i: int|
                            0 <= i < to - from ==> json_parsed(store.entries[from + i].envelope)
                                == Some(#[trigger] response.documents[i])
                        &&& response.adaptor_form == range_text(
                            proof_of(leaves_of(store.entries), size, from, to),
                        )
                    },
                    Err(fault) => fault == Fault::Json && exists|i: int|
                        from <= i < to && json_parsed((#[trigger] store.entries[i]).envelope) is None,
                }
            }
        }),
{
    let size = cp.tree_size;
    if size <= store.entries.len() && from < to && to <= size {
        let leaves = Seq::new(size as nat, |i: int| leaf_of(store.entries[i].envelope));
        whole_material_has_no_gap(store.tree, 0, size as nat);
        assert(store.tree.leaves.subrange(0, size as int) =~= leaves);
        whole_material_opens_spans(store.tree, 0, size as nat, from as nat, to as nat);
        let window = envelopes_of(store.window(from as int, to as int));
        assert forall|i: int| 0 <= i < window.len() implies #[trigger] window[i]
            == store.entries[from + i].envelope by {}
        match documents_of(window) {
            Some(documents) => {
                documents_are_parsed(window);
                assert forall|i: int| 0 <= i < to - from implies json_parsed(
                    store.entries[from + i].envelope,
                ) == Some(#[trigger] documents[i]) by {
                    assert(json_parsed(window[i]) == Some(documents[i]));
                }
            },
            None => {
                let i = an_unread_document_is_found(window);
                assert(json_parsed(store.entries[from + i].envelope) is None);
            },
        }
    }
}

/// Where a list of byte strings has no documents, one of them is none; its place is returned.
proof fn an_unread_document_is_found(list: Seq<Seq<u8>>) -> (at: int)
    requires
        documents_of(list) is None,
    ensures
        0 <= at < list.len(),
        json_parsed(list[at]) is None,
    decreases list.len(),
{
    if documents_of(list.drop_last()) is None {
        let at = an_unread_document_is_found(list.drop_last());
        assert(list.drop_last()[at] == list[at]);
        at
    } else {
        list.len() - 1
    }
}

/// Where every complete node is stored, no subtree outside a window has a lost node.
proof fn whole_material_opens_spans(
    material: TreeView,
    offset: nat,
    size: nat,
    from: nat,
    to: nat,
)
    requires
        material.held == complete_nodes(material.leaves.len()),
        offset + size <= material.leaves.len(),
    ensures
        material.gap_over(outside_spans(offset, size, from, to)) is None,
    decreases size,
{
    match place_of(offset, size, from, to) {
        Span::Outside => {
            whole_material_has_no_gap(material, offset, size);
            reveal_with_fuel(TreeView::gap_over, 2);
            assert(seq![(offset, size)].drop_first() =~= Seq::<(nat, nat)>::empty());
        },
        Span::Inside => {},
        Span::Straddles => {
            if size >= 2 {
                split_is_largest_power_below(size);
                let k = split(size);
                whole_material_opens_spans(material, offset, k, from, to);
                whole_material_opens_spans(material, offset + k, (size - k) as nat, from, to);
                no_gap_in_either_is_none_in_both(
                    material,
                    outside_spans(offset, k, from, to),
                    outside_spans(offset + k, (size - k) as nat, from, to),
                );
            }
        },
    }
}

/// Two lists of spans without a lost node have none together.
proof fn no_gap_in_either_is_none_in_both(
    material: TreeView,
    a: Seq<(nat, nat)>,
    b: Seq<(nat, nat)>,
)
    requires
        material.gap_over(a) is None,
        material.gap_over(b) is None,
    ensures
        material.gap_over(a + b) is None,
    decreases a.len(),
{
    if a.len() == 0 {
        assert(a + b =~= b);
    } else {
        no_gap_in_either_is_none_in_both(material, a.drop_first(), b);
        assert((a + b).drop_first() =~= a.drop_first() + b);
        assert((a + b)[0] == a[0]);
    }
}

/// What a range proof is judged by: it is about the window and the tree that the response names,
/// the root is a hash text, and the proof is structurally usable; it then opens the root or does
/// not. Each of these is refused for itself.
pub proof fn a_range_proof_is_judged_for_its_own_window(
    p: RangeProofView,
    from: u64,
    to: u64,
    cp: CheckpointView,
    leaves: Seq<Seq<u8>>,
)
    ensures
        ({
            let judged = range_judged(p, from, to, cp, leaves);
            if p.tree_size != cp.tree_size || p.from_index != from || p.to_index != to {
                judged == Err::<bool, Fault>(
                    Fault::InvalidRange { from_index: from, to_index: to, tree_size: cp.tree_size },
                )
            } else if hash_of_text(cp.root_hash) is None {
                judged == Err::<bool, Fault>(Fault::Ahl)
            } else if from >= to || to > cp.tree_size || leaves.len() != to - from || p.nodes.len()
                != outside_spans(0, cp.tree_size as nat, from as nat, to as nat).len() {
                judged == Err::<bool, Fault>(Fault::Ahl)
            } else {
                judged == Ok::<bool, Fault>(
                    reopened(0, cp.tree_size as nat, from as nat, to as nat, leaves, p.nodes)
                        == hash_of_text(cp.root_hash)->0,
                )
            }
        }),
{
}

/// What building a response costs: the bytes of the window's entries and nothing of any other,
/// one by one.
pub proof fn only_the_window_is_read(list: Seq<Seq<u8>>, more: Seq<u8>)
    ensures
        total_length(Seq::empty()) == 0,
        total_length(list.push(more)) == total_length(list) + more.len(),
{
    assert(list.push(more).drop_last() =~= list);
}

/// What a response is judged by, in order: its entries are consecutive from the start of its
/// window, its text carries a proof, and that proof judges the leaves of its documents.
pub proof fn a_response_is_judged_by_the_proof_it_carries(
    response: RangeResponseView,
    p: RangeProofView,
)
    requires
        response.from_index + response.indexes.len() <= u64::MAX,
    ensures
        ({
            let placed = forall|i: int|
                0 <= i < response.indexes.len() ==> #[trigger] response.indexes[i]
                    == response.from_index + i;
            &&& !placed ==> response.judged() == Err::<bool, Fault>(
                Fault::InvalidRange {
                    from_index: response.from_index,
                    to_index: response.to_index,
                    tree_size: response.checkpoint.tree_size,
                },
            )
            &&& placed && carries(response.adaptor_form, p) ==> response.judged() == range_judged(
                p,
                response.from_index,
                response.to_index,
                response.checkpoint,
                Seq::new(
                    response.documents.len(),
                    |i: int| leaf_of(jcs_octets(response.documents[i])),
                ),
            )
            &&& placed && (forall|q: RangeProofView| !#[trigger] carries(response.adaptor_form, q))
                ==> response.judged() == Err::<bool, Fault>(Fault::Ahl)
        }),
{
    let from = response.from_index;
    let indexes = response.indexes;
    only_consecutive_indexes_are_in_place(
        from,
        response.to_index,
        response.checkpoint.tree_size,
        indexes,
    );
    let whole = indexes_from(from, indexes.len());
    if forall|i: int| 0 <= i < indexes.len() ==> #[trigger] indexes[i] == from + i {
        assert(indexes =~= whole);
    } else {
        let i = choose|i: int| 0 <= i < indexes.len() && #[trigger] indexes[i] != from + i;
        assert(whole[i] == from + i);
    }
    assert(document_leaves(response.documents) =~= Seq::new(
        response.documents.len(),
        |i: int| leaf_of(jcs_octets(response.documents[i])),
    ));
    if carries(response.adaptor_form, p) {
        let chosen = choose|q: RangeProofView| carries(response.adaptor_form, q);
        a_carried_proof_is_the_one_written(response.adaptor_form, p, chosen);
    }
}

} // verus!
