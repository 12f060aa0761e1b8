//! The shape of an append-only Merkle tree: powers of two, split points and roots.

use vstd::prelude::*;

use crate::primitives::{a_node_tells_its_children, collides, node_hash, node_octets, sha256};

verus! {

/// How many leaves a node of a level covers: two to the power of the level.
pub open spec fn width(level: nat) -> nat
    decreases level,
{
    if level == 0 {
        1
    } else {
        2 * width((level - 1) as nat)
    }
}

/// The largest power of two strictly below `size`, for a size of two or more.
pub open spec fn split(size: nat) -> nat
    decreases size,
{
    if size <= 2 {
        1
    } else {
        2 * split(((size + 1) / 2) as nat)
    }
}

/// The level of the largest block that fits into `size` leaves.
pub open spec fn level_of(size: nat) -> nat
    decreases size,
{
    if size <= 1 {
        0
    } else {
        1 + level_of(size / 2)
    }
}

/// Whether `size` leaves from `offset` on are exactly those of one node of the tree.
pub open spec fn is_block(offset: nat, size: nat) -> bool {
    size == width(level_of(size)) && offset % size == 0
}

/// The root over a sequence of leaf hashes: the digest of nothing for no leaf, the leaf for
/// one, else the hash over the roots of the two parts that the split point leaves.
pub open spec fn root_of(leaves: Seq<Seq<u8>>) -> Seq<u8>
    decreases leaves.len(),
{
    if leaves.len() == 0 {
        sha256(Seq::empty())
    } else if leaves.len() == 1 {
        leaves[0]
    } else {
        proof {
            split_is_largest_power_below(leaves.len());
        }
        let k = split(leaves.len()) as int;
        node_hash(root_of(leaves.take(k)), root_of(leaves.skip(k)))
    }
}

/// The root over `size` leaves from `offset` on.
pub open spec fn span_root(leaves: Seq<Seq<u8>>, offset: nat, size: nat) -> Seq<u8> {
    root_of(leaves.subrange(offset as int, (offset + size) as int))
}

/// Whether every hash of a list has 32 octets.
pub open spec fn of_hash_length(list: Seq<Seq<u8>>) -> bool {
    forall|i: int| 0 <= i < list.len() ==> (#[trigger] list[i]).len() == 32
}

/// Whether a digest collides between the nodes at one place of two trees of one shape.
pub open spec fn trees_collide(a: Seq<Seq<u8>>, b: Seq<Seq<u8>>) -> bool
    decreases a.len(),
{
    if a.len() < 2 || a.len() != b.len() {
        false
    } else {
        proof {
            split_is_largest_power_below(a.len());
        }
        let k = split(a.len()) as int;
        ||| collides(
            node_octets(root_of(a.take(k)), root_of(a.skip(k))),
            node_octets(root_of(b.take(k)), root_of(b.skip(k))),
        )
        ||| trees_collide(a.take(k), b.take(k))
        ||| trees_collide(a.skip(k), b.skip(k))
    }
}

/// A root over hashes of 32 octets has 32 octets.
pub proof fn a_root_has_hash_length(leaves: Seq<Seq<u8>>)
    requires
        of_hash_length(leaves),
    ensures
        root_of(leaves).len() == 32,
{
}

/// A root commits to its leaves: as many leaves of one root are equal, or a digest collides
/// between the nodes at some place of their trees.
pub proof fn a_root_commits_to_its_leaves(a: Seq<Seq<u8>>, b: Seq<Seq<u8>>)
    requires
        a.len() == b.len(),
        of_hash_length(a),
        of_hash_length(b),
        root_of(a) == root_of(b),
    ensures
        a == b || trees_collide(a, b),
    decreases a.len(),
{
    if a.len() < 2 {
        assert(a =~= b);
    } else {
        split_is_largest_power_below(a.len());
        let k = split(a.len()) as int;
        let (a_left, a_right) = (a.take(k), a.skip(k));
        let (b_left, b_right) = (b.take(k), b.skip(k));
        assert(of_hash_length(a_left) && of_hash_length(a_right));
        assert(of_hash_length(b_left) && of_hash_length(b_right));
        let one = node_octets(root_of(a_left), root_of(a_right));
        let two = node_octets(root_of(b_left), root_of(b_right));
        if one == two {
            a_root_has_hash_length(a_left);
            a_root_has_hash_length(b_left);
            a_node_tells_its_children(
                root_of(a_left),
                root_of(a_right),
                root_of(b_left),
                root_of(b_right),
            );
            a_root_commits_to_its_leaves(a_left, b_left);
            a_root_commits_to_its_leaves(a_right, b_right);
            assert(a =~= a_left + a_right);
            assert(b =~= b_left + b_right);
        } else {
            assert(collides(one, two));
        }
    }
}

/// The roots over each of a list of `(offset, size)` spans.
pub open spec fn span_roots(leaves: Seq<Seq<u8>>, spans: Seq<(nat, nat)>) -> Seq<Seq<u8>> {
    Seq::new(spans.len(), |i: int| span_root(leaves, spans[i].0, spans[i].1))
}

/// A width is positive.
pub proof fn width_is_positive(level: nat)
    ensures
        width(level) >= 1,
    decreases level,
{
    if level > 0 {
        width_is_positive((level - 1) as nat);
    }
}

/// A wider level is at least as wide.
pub proof fn width_is_monotone(low: nat, high: nat)
    requires
        low <= high,
    ensures
        width(low) <= width(high),
        low < high ==> 2 * width(low) <= width(high),
    decreases high,
{
    width_is_positive(low);
    if low < high {
        width_is_monotone(low, (high - 1) as nat);
    }
}

/// The widths at the ends of the 64-bit range.
pub proof fn width_at_64()
    ensures
        width(63) == 0x8000_0000_0000_0000,
        width(64) == 0x1_0000_0000_0000_0000,
{
    reveal_with_fuel(width, 33);
    assert(width(32) == 0x1_0000_0000);
    assert(width(63) == 0x8000_0000_0000_0000);
}

/// The split point is a power of two below the size and at least half of it.
pub proof fn split_is_largest_power_below(size: nat) -> (level: nat)
    requires
        size >= 2,
    ensures
        split(size) == width(level),
        0 < split(size) < size <= 2 * split(size),
    decreases size,
{
    if size == 2 {
        0
    } else {
        let below = split_is_largest_power_below(((size + 1) / 2) as nat);
        below + 1
    }
}

/// A power of two below a size and at least half of it is its split point.
pub proof fn split_is_unique(size: nat, level: nat)
    requires
        size >= 2,
        width(level) < size <= 2 * width(level),
    ensures
        split(size) == width(level),
{
    let other = split_is_largest_power_below(size);
    if other < level {
        width_is_monotone(other, level);
    } else if level < other {
        width_is_monotone(level, other);
    }
}

/// A power of two is split in the middle.
pub proof fn split_of_width(level: nat)
    ensures
        split(width(level + 1)) == width(level),
{
    width_is_positive(level);
    split_is_unique(width(level + 1), level);
}

/// The level of a power of two.
pub proof fn level_of_width(level: nat)
    ensures
        level_of(width(level)) == level,
    decreases level,
{
    width_is_positive(level);
    if level > 0 {
        level_of_width((level - 1) as nat);
        assert(width(level) / 2 == width((level - 1) as nat));
    }
}

/// The root over two or more leaves combines the roots over its two parts.
pub proof fn span_root_splits(leaves: Seq<Seq<u8>>, offset: nat, size: nat)
    requires
        size >= 2,
        offset + size <= leaves.len(),
    ensures
        0 < split(size) < size,
        span_root(leaves, offset, size) == node_hash(
            span_root(leaves, offset, split(size)),
            span_root(leaves, offset + split(size), (size - split(size)) as nat),
        ),
{
    split_is_largest_power_below(size);
    let span = leaves.subrange(offset as int, (offset + size) as int);
    let k = split(size) as int;
    assert(span.len() == size);
    assert(span.take(k) == leaves.subrange(offset as int, offset + k));
    assert(span.skip(k) == leaves.subrange(offset + k, (offset + size) as int));
}

/// The root over one leaf is the leaf.
pub proof fn span_root_of_one(leaves: Seq<Seq<u8>>, offset: nat)
    requires
        offset < leaves.len(),
    ensures
        span_root(leaves, offset, 1) == leaves[offset as int],
{
}

/// The root of a node combines the roots of its two children.
pub proof fn node_root_combines_children(leaves: Seq<Seq<u8>>, level: nat, index: nat)
    requires
        (index + 1) * width(level + 1) <= leaves.len(),
    ensures
        span_root(leaves, index * width(level + 1), width(level + 1)) == node_hash(
            span_root(leaves, (2 * index) * width(level), width(level)),
            span_root(leaves, (2 * index + 1) * width(level), width(level)),
        ),
        (2 * index + 2) * width(level) == (index + 1) * width(level + 1),
{
    width_is_positive(level);
    split_of_width(level);
    let w = width(level);
    assert(index * width(level + 1) == (2 * index) * w) by (nonlinear_arith)
        requires
            width(level + 1) == 2 * w,
    ;
    assert((2 * index) * w + w == (2 * index + 1) * w) by (nonlinear_arith);
    assert((index + 1) * width(level + 1) == index * width(level + 1) + width(level + 1))
        by (nonlinear_arith);
    assert((2 * index + 2) * w == (2 * index) * w + 2 * w) by (nonlinear_arith);
    span_root_splits(leaves, index * width(level + 1), width(level + 1));
}

/// Leaves added at the end leave the root over an earlier span as it was.
pub proof fn span_root_survives_append(
    leaves: Seq<Seq<u8>>,
    more: Seq<Seq<u8>>,
    offset: nat,
    size: nat,
)
    requires
        offset + size <= leaves.len() <= more.len(),
        more.take(leaves.len() as int) == leaves,
    ensures
        span_root(more, offset, size) == span_root(leaves, offset, size),
{
    assert(more.subrange(offset as int, (offset + size) as int) == leaves.subrange(
        offset as int,
        (offset + size) as int,
    )) by {
        assert forall|i: int| offset <= i < offset + size implies #[trigger] more[i]
            == leaves[i] by {
            assert(more.take(leaves.len() as int)[i] == leaves[i]);
        }
    }
}

/// A list of leaf hashes as sequences.
pub open spec fn hashes_view(hashes: Seq<[u8; 32]>) -> Seq<Seq<u8>> {
    Seq::new(hashes.len(), |i: int| hashes[i]@)
}

/// `atl_core::core::merkle::compute_root`: the root over the leaves.
pub assume_specification[ atl_core::core::merkle::compute_root ](
    leaves: &[atl_core::core::merkle::Hash],
) -> (root: atl_core::core::merkle::Hash)
    ensures
        root@ == root_of(hashes_view(leaves@)),
;

/// `atl_core::core::merkle::largest_power_of_2_less_than`: zero up to one, else the largest
/// power of two strictly below the size.
pub assume_specification[ atl_core::core::merkle::largest_power_of_2_less_than ](n: u64) -> (k: u64)
    ensures
        n <= 1 ==> k == 0,
        n >= 2 ==> k == split(n as nat),
;

/// The split point of a size of two or more.
pub(crate) fn split_point(size: u64) -> (k: u64)
    requires
        size >= 2,
    ensures
        k == split(size as nat),
        0 < k < size <= 2 * k,
{
    proof {
        split_is_largest_power_below(size as nat);
    }
    atl_core::core::merkle::largest_power_of_2_less_than(size)
}

/// The level of `size` leaves from `offset` on, where they are exactly those of one node.
pub(crate) fn block_level(offset: u64, size: u64) -> (level: Option<u32>)
    requires
        size >= 1,
    ensures
        match level {
            Some(l) => is_block(offset as nat, size as nat) && l == level_of(size as nat) && l < 64
                && size == width(l as nat),
            None => !is_block(offset as nat, size as nat),
        },
{
    let mut level: u32 = 0;
    let mut wide: u64 = 1;
    proof {
        width_at_64();
    }
    while wide <= size / 2
        invariant
            wide == width(level as nat),
            1 <= wide <= size,
            level < 64,
            width(63) == 0x8000_0000_0000_0000,
        decreases size - wide,
    {
        proof {
            if level == 63 {
                assert(false);
            }
        }
        wide = wide * 2;
        level = level + 1;
    }
    proof {
        if size as nat == width(level_of(size as nat)) {
            level_of_width(level_of(size as nat));
            let other = level_of(size as nat);
            if level as nat != other {
                if (level as nat) < other {
                    width_is_monotone(level as nat, other);
                } else {
                    width_is_monotone(other, level as nat);
                }
                assert(false);
            }
        }
        level_of_width(level as nat);
    }
    if wide == size && offset % size == 0 {
        Some(level)
    } else {
        None
    }
}

/// The root over leaves: of none it is the digest of nothing, of one the leaf itself, and of more
/// the digest of `0x01` and the roots of two parts, the first of which holds the largest power of
/// two of leaves that leaves some for the second.
pub proof fn a_root_is_of_its_two_parts(leaves: Seq<Seq<u8>>, level: nat)
    ensures
        leaves.len() == 0 ==> root_of(leaves) == sha256(Seq::empty()),
        leaves.len() == 1 ==> root_of(leaves) == leaves[0],
        width(level) < leaves.len() <= 2 * width(level) ==> root_of(leaves) == sha256(
            seq![1u8] + root_of(leaves.subrange(0, width(level) as int)) + root_of(
                leaves.subrange(width(level) as int, leaves.len() as int),
            ),
        ),
{
    let k = width(level) as int;
    width_is_positive(level);
    if k < leaves.len() <= 2 * k {
        split_is_unique(leaves.len(), level);
        assert(leaves.subrange(0, k) =~= leaves.take(k));
        assert(leaves.subrange(k, leaves.len() as int) =~= leaves.skip(k));
    }
}

/// A level is twice as wide as the one below it, and a leaf covers itself.
pub proof fn a_level_is_twice_as_wide_as_the_one_below(level: nat)
    ensures
        width(0) == 1,
        width(level + 1) == 2 * width(level),
{
}

} // verus!
