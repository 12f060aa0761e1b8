//! A store from the rows of a database: tree material is derived from the entry bytes, whatever
//! was stored of it, and rows that no store can be made of are refused.

use vstd::prelude::*;

use crate::error::{Fault, MirrorError, MirrorResult};
use crate::geometry::{span_root, width, width_at_64, width_is_monotone, width_is_positive};
use crate::metadata::{leaf_of, log_leaf_hash};
use crate::series::{
    anchor_checkpoints, anchors_view, checkpoints_view, comes_before, in_series_order,
    in_weak_order, is_before, order_is_total, order_is_transitive, Checkpoint, CheckpointView,
};
use crate::tree::{complete_nodes, MAX_LEAVES};

verus! {

/// A row of canonical entries.
pub struct EntryRecord {
    /// The entry's position in the log.
    pub entry_index: u64,
    /// The id it is filed under.
    pub entry_id: String,
    /// Its exact bytes.
    pub envelope: Vec<u8>,
    /// Its leaf hash, where one was stored.
    pub leaf_hash: Option<Vec<u8>>,
}

/// A row of interior tree nodes.
pub struct NodeRecord {
    /// The node's level.
    pub level: u32,
    /// Its position within the level.
    pub node_index: u64,
    /// Its hash as stored.
    pub hash: Vec<u8>,
}

/// The rows of a database.
pub struct Rows {
    /// Staged bytes by entry id, one row per id.
    pub staged: Vec<(String, Vec<u8>)>,
    /// Canonical entries, by ascending index.
    pub entries: Vec<EntryRecord>,
    /// How many interior tree nodes are stored.
    pub node_count: u64,
    /// The series, by ascending tree size and time.
    pub checkpoints: Vec<Checkpoint>,
    /// The rotation anchors, by ascending tree size and time.
    pub anchors: Vec<(u64, Checkpoint)>,
    /// The superseded anchors, by ascending tree size and time.
    pub superseded: Vec<Checkpoint>,
}

/// Staged rows as a map, a later row of an id in place of an earlier one.
pub open spec fn staged_rows(rows: Seq<(String, Vec<u8>)>) -> Map<Seq<char>, Seq<u8>>
    decreases rows.len(),
{
    if rows.len() == 0 {
        Map::empty()
    } else {
        staged_rows(rows.drop_last()).insert(rows.last().0@, rows.last().1@)
    }
}

/// The leaf hashes of the entry rows.
pub open spec fn row_leaves(rows: Seq<EntryRecord>) -> Seq<Seq<u8>> {
    Seq::new(rows.len(), |i: int| leaf_of(rows[i].envelope@))
}

impl Rows {
    /// Whether the stored nodes are not as many as the entries complete, so that they have to be
    /// made again of the leaf hashes.
    pub open spec fn is_short(self) -> bool {
        self.node_count != population(self.entries@.len())
    }

    /// What is wrong with the first rows that something is wrong with: the entries, then the
    /// series, then the anchors, then the superseded ones.
    pub open spec fn fault(self) -> Option<Fault> {
        if self.entries@.len() > MAX_LEAVES {
            Some(Fault::StoreInit("there are too many entry rows"@))
        } else if entries_fault(self.entries@, self.is_short()) is Some {
            entries_fault(self.entries@, self.is_short())
        } else if series_fault(checkpoints_view(self.checkpoints@)) is Some {
            series_fault(checkpoints_view(self.checkpoints@))
        } else if anchors_fault(anchors_view(self.anchors@)) is Some {
            anchors_fault(anchors_view(self.anchors@))
        } else {
            superseded_fault(checkpoints_view(self.superseded@))
        }
    }
}

/// How many interior nodes `count` leaves complete at `level` and above.
pub open spec fn population_from(count: nat, level: nat) -> nat
    decreases 64 - level,
{
    if level >= 64 {
        0
    } else {
        count / width(level) + population_from(count, level + 1)
    }
}

/// How many interior nodes `count` leaves complete.
pub open spec fn population(count: nat) -> nat {
    population_from(count, 1)
}

/// The nodes of a level that `count` leaves complete are the first `count / width(level)`.
pub proof fn a_level_completes_its_quotient(count: nat, level: nat, index: nat)
    requires
        level >= 1,
    ensures
        complete_nodes(count).contains((level, index)) <==> index < count / width(level),
{
    let w = width(level);
    width_is_positive(level);
    if index < count / w {
        assert((index + 1) * w <= count) by (nonlinear_arith)
            requires
                w >= 1,
                index + 1 <= count / w,
        ;
    } else {
        assert((index + 1) * w > count) by (nonlinear_arith)
            requires
                w >= 1,
                index >= count / w,
        ;
    }
}

/// No level that is wider than the log is populated.
proof fn nothing_beyond(count: nat, level: nat)
    requires
        count < width(level),
    ensures
        population_from(count, level) == 0,
    decreases 64 - level,
{
    if level < 64 {
        width_is_monotone(level, level + 1);
        nothing_beyond(count, level + 1);
        vstd::arithmetic::div_mod::lemma_basic_div(count as int, width(level) as int);
    }
}

/// How many interior nodes a log of `count` entries completes.
pub fn expected_nodes(count: u64) -> (expected: u64)
    requires
        count <= MAX_LEAVES,
    ensures
        expected == population(count as nat),
{
    let mut expected: u64 = 0;
    let mut level: u32 = 1;
    let mut wide: u64 = 2;
    proof {
        width_at_64();
        reveal_with_fuel(width, 2);
    }
    while wide <= count
        invariant
            count <= MAX_LEAVES,
            1 <= level <= 63,
            wide == width(level as nat),
            width(63) == 0x8000_0000_0000_0000,
            population(count as nat) == expected + population_from(count as nat, level as nat),
            expected + (count as nat) / width((level - 1) as nat) <= count,
        decreases 64 - level,
    {
        proof {
            let below = width((level - 1) as nat);
            width_is_positive((level - 1) as nat);
            let c = count as nat;
            assert(2 * (c / (2 * below)) <= c / below) by (nonlinear_arith)
                requires
                    below >= 1,
            ;
            if level == 63 {
                assert(false);
            }
        }
        expected = expected + count / wide;
        level = level + 1;
        wide = wide * 2;
    }
    proof {
        nothing_beyond(count as nat, level as nat);
    }
    expected
}

// ---- entries ----

/// What is wrong with the last of a list of entry rows: its index does not follow, its id
/// occurs before, or the nodes have to be made again and its stored leaf hash has not the length
/// of one.
///
/// Canonical entries occupy the indexes from 0 on with no gap, since a promotion is at the next
/// index only; the nodes over a gap cannot be made.
pub open spec fn last_entry_fault(rows: Seq<EntryRecord>, short: bool) -> Option<Fault> {
    let at = rows.len() - 1;
    let row = rows.last();
    if row.entry_index != at {
        Some(Fault::StoreInit("entry rows are not contiguous"@))
    } else if exists|j: int| 0 <= j < at && (#[trigger] rows[j]).entry_id@ == row.entry_id@ {
        Some(Fault::StoreInit("an entry id occurs twice"@))
    } else {
        match row.leaf_hash {
            Some(stored) if short && stored@.len() != 32 => Some(
                Fault::StoreInit("a stored leaf hash is not 32 octets"@),
            ),
            _ => None,
        }
    }
}

/// What is wrong with the first entry row that something is wrong with.
pub open spec fn entries_fault(rows: Seq<EntryRecord>, short: bool) -> Option<Fault>
    decreases rows.len(),
{
    if rows.len() == 0 {
        None
    } else {
        match entries_fault(rows.drop_last(), short) {
            Some(fault) => Some(fault),
            None => last_entry_fault(rows, short),
        }
    }
}

/// What is wrong with a prefix of the rows is what is wrong with the rows.
pub(crate) proof fn an_entry_fault_stands(rows: Seq<EntryRecord>, short: bool, count: int)
    requires
        0 <= count <= rows.len(),
        entries_fault(rows.take(count), short) is Some,
    ensures
        entries_fault(rows, short) == entries_fault(rows.take(count), short),
    decreases rows.len(),
{
    if count < rows.len() {
        assert(rows.drop_last().take(count) =~= rows.take(count));
        an_entry_fault_stands(rows.drop_last(), short, count);
    } else {
        assert(rows.take(count) =~= rows);
    }
}

/// The leaf hash of an entry row, made of its bytes. Where the nodes have to be made again, one
/// that is stored must have the length of a leaf hash.
pub(crate) fn checked_leaf(row: &EntryRecord, short: bool) -> (leaf: MirrorResult<[u8; 32]>)
    ensures
        match leaf {
            Ok(hash) => hash@ == leaf_of(row.envelope@) && (short && row.leaf_hash is Some
                ==> row.leaf_hash->0@.len() == 32),
            Err(error) => short && row.leaf_hash is Some && row.leaf_hash->0@.len() != 32 && error@
                == (Fault::StoreInit("a stored leaf hash is not 32 octets"@)),
        },
{
    if let Some(stored) = &row.leaf_hash {
        if short && stored.len() != 32 {
            return Err(MirrorError::StoreInit("a stored leaf hash is not 32 octets".to_owned()));
        }
    }
    Ok(log_leaf_hash(row.envelope.as_slice()))
}

// ---- nodes ----

/// Whether a node row is of a node that `count` leaves complete.
pub open spec fn is_complete(count: nat, row: NodeRecord) -> bool {
    row.level >= 1 && (row.node_index + 1) * width(row.level as nat) <= count
}

/// Whether a node row holds the root over the leaves its node covers.
pub open spec fn is_true_node(row: NodeRecord, leaves: Seq<Seq<u8>>) -> bool {
    &&& is_complete(leaves.len(), row)
    &&& row.hash@ == span_root(
        leaves,
        (row.node_index * width(row.level as nat)) as nat,
        width(row.level as nat),
    )
}

/// Whether two node rows are of one node.
pub open spec fn same_node(a: NodeRecord, b: NodeRecord) -> bool {
    a.level == b.level && a.node_index == b.node_index
}

/// Whether no two of a list of node rows are of one node.
pub open spec fn are_different_nodes(rows: Seq<NodeRecord>) -> bool {
    forall|i: int, j: int|
        0 <= i < j < rows.len() ==> !same_node(#[trigger] rows[i], #[trigger] rows[j])
}

/// Whether node rows hold exactly the nodes that the leaves complete: they are as many, each holds
/// the root of its node, and no node occurs twice.
pub open spec fn is_whole_cache(rows: Seq<NodeRecord>, leaves: Seq<Seq<u8>>) -> bool {
    &&& rows.len() == population(leaves.len())
    &&& forall|i: int| 0 <= i < rows.len() ==> is_true_node(#[trigger] rows[i], leaves)
    &&& are_different_nodes(rows)
}

/// How many interior nodes `count` leaves complete below `level`.
spec fn nodes_below(count: nat, level: nat) -> nat
    decreases level,
{
    if level <= 1 {
        0
    } else {
        nodes_below(count, (level - 1) as nat) + count / width((level - 1) as nat)
    }
}

/// The place of a node among the interior nodes that `count` leaves complete, level by level.
spec fn node_place(count: nat, row: NodeRecord) -> nat {
    nodes_below(count, row.level as nat) + row.node_index as nat
}

/// The nodes below a level and those from it on are all of them.
proof fn the_levels_part_the_nodes(count: nat, level: nat)
    requires
        1 <= level <= 64,
    ensures
        nodes_below(count, level) + population_from(count, level) == population(count),
    decreases level,
{
    if level > 1 {
        let lower = (level - 1) as nat;
        the_levels_part_the_nodes(count, lower);
        width_is_positive(lower);
        vstd::arithmetic::div_mod::lemma_div_pos_is_pos(count as int, width(lower) as int);
        assert(population_from(count, lower) == count / width(lower) + population_from(count, level));
        assert(nodes_below(count, level) == nodes_below(count, lower) + count / width(lower));
    }
}

/// The nodes of lower levels come first.
proof fn lower_levels_come_first(count: nat, low: nat, high: nat)
    requires
        1 <= low < high,
    ensures
        nodes_below(count, low) + count / width(low) <= nodes_below(count, high),
    decreases high,
{
    let last = (high - 1) as nat;
    width_is_positive(last);
    vstd::arithmetic::div_mod::lemma_div_pos_is_pos(count as int, width(last) as int);
    assert(nodes_below(count, high) == nodes_below(count, last) + count / width(last));
    if low < last {
        lower_levels_come_first(count, low, last);
    }
}

/// A complete node has a level below 63 and a place below the number of nodes.
proof fn a_node_has_a_place(count: nat, row: NodeRecord)
    requires
        count <= MAX_LEAVES,
        is_complete(count, row),
    ensures
        row.level <= 62,
        row.node_index < count / width(row.level as nat),
        node_place(count, row) < population(count),
{
    let level = row.level as nat;
    let w = width(level);
    width_is_positive(level);
    assert(w <= count) by (nonlinear_arith)
        requires
            (row.node_index + 1) * w <= count,
            row.node_index >= 0,
            w >= 1,
    ;
    if level >= 63 {
        width_at_64();
        width_is_monotone(63, level);
    }
    a_level_completes_its_quotient(count, level, row.node_index as nat);
    the_levels_part_the_nodes(count, level);
}

/// Nodes of one place are one node.
proof fn a_place_is_of_one_node(count: nat, a: NodeRecord, b: NodeRecord)
    requires
        count <= MAX_LEAVES,
        is_complete(count, a),
        is_complete(count, b),
        node_place(count, a) == node_place(count, b),
    ensures
        same_node(a, b),
{
    a_node_has_a_place(count, a);
    a_node_has_a_place(count, b);
    if a.level < b.level {
        lower_levels_come_first(count, a.level as nat, b.level as nat);
    } else if b.level < a.level {
        lower_levels_come_first(count, b.level as nat, a.level as nat);
    }
}

/// The place of a node among those that `count` leaves complete.
fn find_place(count: u64, row: &NodeRecord) -> (place: u64)
    requires
        count <= MAX_LEAVES,
        is_complete(count as nat, *row),
        population(count as nat) <= u64::MAX,
    ensures
        place == node_place(count as nat, *row),
        place < population(count as nat),
{
    let mut below: u64 = 0;
    let mut level: u32 = 1;
    let mut wide: u64 = 2;
    proof {
        a_node_has_a_place(count as nat, *row);
        width_at_64();
        reveal_with_fuel(width, 2);
    }
    while level < row.level
        invariant
            1 <= level <= row.level <= 62,
            wide == width(level as nat),
            width(63) == 0x8000_0000_0000_0000,
            below == nodes_below(count as nat, level as nat),
            population(count as nat) <= u64::MAX,
        decreases row.level - level,
    {
        proof {
            the_levels_part_the_nodes(count as nat, (level + 1) as nat);
            width_is_positive(level as nat);
            width_is_monotone((level + 1) as nat, 63);
        }
        below = below + count / wide;
        level = level + 1;
        wide = wide * 2;
    }
    below + row.node_index
}

/// Whether no two of a list of rows of complete nodes, as many as there are such nodes, are of
/// one node.
pub(crate) fn tell_apart(rows: &Vec<NodeRecord>, count: u64) -> (different: bool)
    requires
        count <= MAX_LEAVES,
        rows@.len() == population(count as nat),
        forall|i: int| 0 <= i < rows@.len() ==> is_complete(count as nat, #[trigger] rows@[i]),
    ensures
        different == are_different_nodes(rows@),
{
    let ghost n = count as nat;
    let mut marks: Vec<bool> = Vec::new();
    while marks.len() < rows.len()
        invariant
            marks@.len() <= rows@.len(),
            forall|k: int| 0 <= k < marks@.len() ==> !(#[trigger] marks@[k]),
        decreases rows.len() - marks.len(),
    {
        marks.push(false);
    }
    let mut i: usize = 0;
    while i < rows.len()
        invariant
            i <= rows@.len(),
            n == count as nat,
            count <= MAX_LEAVES,
            marks@.len() == rows@.len() == population(n),
            forall|k: int| 0 <= k < rows@.len() ==> is_complete(n, #[trigger] rows@[k]),
            forall|p: int|
                0 <= p < marks@.len() && #[trigger] marks@[p] ==> exists|k: int|
                    0 <= k < i && node_place(n, #[trigger] rows@[k]) == p,
            forall|k: int|
                0 <= k < i ==> marks@[node_place(n, #[trigger] rows@[k]) as int],
            are_different_nodes(rows@.take(i as int)),
        decreases rows.len() - i,
    {
        let place: u64 = find_place(count, &rows[i]);
        if marks[place as usize] {
            proof {
                let k = choose|k: int| 0 <= k < i && node_place(n, #[trigger] rows@[k]) == place;
                a_place_is_of_one_node(n, rows@[k], rows@[i as int]);
            }
            return false;
        }
        let ghost marked = marks@;
        marks.set(place as usize, true);
        proof {
            let more = rows@.take(i + 1);
            assert forall|a: int, b: int| 0 <= a < b < more.len() implies !same_node(
                #[trigger] more[a],
                #[trigger] more[b],
            ) by {
                if b < i {
                    assert(more[a] == rows@.take(i as int)[a]);
                    assert(more[b] == rows@.take(i as int)[b]);
                } else {
                    assert(marked[node_place(n, rows@[a]) as int]);
                }
            }
            assert forall|k: int| 0 <= k < i + 1 implies marks@[node_place(
                n,
                #[trigger] rows@[k],
            ) as int] by {
                a_node_has_a_place(n, rows@[k]);
            }
            assert forall|p: int| 0 <= p < marks@.len() && #[trigger] marks@[p] implies exists|
                k: int,
            |
                0 <= k < i + 1 && node_place(n, #[trigger] rows@[k]) == p by {
                if p == place {
                    assert(node_place(n, rows@[i as int]) == p);
                } else {
                    assert(marked[p]);
                    let k = choose|k: int| 0 <= k < i && node_place(n, #[trigger] rows@[k]) == p;
                    assert(node_place(n, rows@[k]) == p);
                }
            }
        }
        i += 1;
    }
    assert(rows@.take(i as int) =~= rows@);
    true
}

/// A whole cache lacks nothing: every node that the leaves complete has its row.
pub proof fn a_whole_cache_holds_every_node(
    rows: Seq<NodeRecord>,
    leaves: Seq<Seq<u8>>,
    level: u32,
    node_index: u64,
)
    requires
        leaves.len() <= MAX_LEAVES,
        is_whole_cache(rows, leaves),
        complete_nodes(leaves.len()).contains((level as nat, node_index as nat)),
    ensures
        exists|i: int|
            0 <= i < rows.len() && (#[trigger] rows[i]).level == level && rows[i].node_index
                == node_index,
{
    let n = leaves.len();
    let places = Seq::new(rows.len(), |i: int| node_place(n, rows[i]) as int);
    assert forall|i: int, j: int| 0 <= i < places.len() && 0 <= j < places.len() && i != j implies
        places[i] != places[j] by {
        assert(is_true_node(rows[i], leaves) && is_true_node(rows[j], leaves));
        if places[i] == places[j] {
            a_place_is_of_one_node(n, rows[i], rows[j]);
        }
    }
    places.unique_seq_to_set();
    let all = vstd::set_lib::set_int_range(0, population(n) as int);
    vstd::set_lib::lemma_int_range(0, population(n) as int);
    assert forall|p: int| places.to_set().contains(p) implies all.contains(p) by {
        let i = choose|i: int| 0 <= i < places.len() && places[i] == p;
        assert(is_true_node(rows[i], leaves));
        a_node_has_a_place(n, rows[i]);
    }
    vstd::set_lib::lemma_subset_equality(places.to_set(), all);
    let sought = NodeRecord { level, node_index, hash: rows[0].hash };
    a_node_has_a_place(n, sought);
    assert(places.to_set().contains(node_place(n, sought) as int));
    let i = choose|i: int| 0 <= i < places.len() && places[i] == node_place(n, sought);
    assert(is_true_node(rows[i], leaves));
    a_place_is_of_one_node(n, rows[i], sought);
}

// ---- checkpoints ----

/// What is wrong with the checkpoint rows: one is too large to address, or they are not in
/// order.
pub open spec fn series_fault(list: Seq<CheckpointView>) -> Option<Fault> {
    if exists|i: int| 0 <= i < list.len() && (#[trigger] list[i]).tree_size > MAX_LEAVES {
        Some(Fault::StoreInit("a tree size is out of range"@))
    } else if !in_series_order(list) {
        Some(Fault::StoreInit("checkpoint rows are not in order"@))
    } else {
        None
    }
}

/// What is wrong with the anchor rows.
pub open spec fn anchors_fault(list: Seq<(u64, CheckpointView)>) -> Option<Fault> {
    if exists|i: int| 0 <= i < list.len() && (#[trigger] list[i]).0 > MAX_LEAVES {
        Some(Fault::StoreInit("a manifest entry index is out of range"@))
    } else if exists|i: int| 0 <= i < list.len() && (#[trigger] list[i]).1.tree_size > MAX_LEAVES {
        Some(Fault::StoreInit("a tree size is out of range"@))
    } else if !in_weak_order(anchor_checkpoints(list)) {
        Some(Fault::StoreInit("rotation rows are not in order"@))
    } else {
        None
    }
}

/// What is wrong with the rows of superseded anchors.
pub open spec fn superseded_fault(list: Seq<CheckpointView>) -> Option<Fault> {
    if exists|i: int| 0 <= i < list.len() && (#[trigger] list[i]).tree_size > MAX_LEAVES {
        Some(Fault::StoreInit("a tree size is out of range"@))
    } else if !in_weak_order(list) {
        Some(Fault::StoreInit("superseded rows are not in order"@))
    } else {
        None
    }
}

/// Refuse checkpoint rows that something is wrong with.
pub(crate) fn check_series(list: &Vec<Checkpoint>) -> (checked: MirrorResult<()>)
    ensures
        match checked {
            Ok(()) => series_fault(checkpoints_view(list@)) is None,
            Err(error) => error@ is StoreInit && series_fault(checkpoints_view(list@)) == Some(error@),
        },
{
    let ghost listed = checkpoints_view(list@);
    let mut ordered: bool = true;
    let mut i: usize = 0;
    while i < list.len()
        invariant
            i <= list@.len(),
            listed == checkpoints_view(list@),
            forall|k: int| 0 <= k < i ==> (#[trigger] listed[k]).tree_size <= MAX_LEAVES,
            ordered == in_series_order(listed.take(i as int)),
        decreases list.len() - i,
    {
        assert(listed[i as int] == list@[i as int]@);
        if list[i].tree_size > MAX_LEAVES {
            return Err(MirrorError::StoreInit("a tree size is out of range".to_owned()));
        }
        let ghost before = ordered;
        if i > 0 {
            if !is_before(&list[i - 1], &list[i]) {
                ordered = false;
            }
        }
        proof {
            one_more_in_order(listed, i as int);
        }
        i += 1;
    }
    assert(listed.take(i as int) =~= listed);
    if !ordered {
        return Err(MirrorError::StoreInit("checkpoint rows are not in order".to_owned()));
    }
    Ok(())
}

/// A list is in series order with one more member exactly where it was before and the member
/// before the last comes before it.
proof fn one_more_in_order(list: Seq<CheckpointView>, at: int)
    requires
        0 <= at < list.len(),
    ensures
        in_series_order(list.take(at + 1)) <==> in_series_order(list.take(at)) && (at > 0
            ==> comes_before(list[at - 1], list[at])),
{
    let some = list.take(at);
    let more = list.take(at + 1);
    assert forall|k: int| 0 <= k < at implies #[trigger] some[k] == more[k] by {}
    if in_series_order(more) {
        assert forall|i: int, j: int| 0 <= i < j < some.len() implies comes_before(
            #[trigger] some[i],
            #[trigger] some[j],
        ) by {
            assert(comes_before(more[i], more[j]));
        }
        if at > 0 {
            assert(comes_before(more[at - 1], more[at]));
        }
    }
    if in_series_order(some) && (at > 0 ==> comes_before(list[at - 1], list[at])) {
        assert forall|i: int, j: int| 0 <= i < j < more.len() implies comes_before(
            #[trigger] more[i],
            #[trigger] more[j],
        ) by {
            if j < at {
                assert(comes_before(some[i], some[j]));
            } else if i < at - 1 {
                assert(comes_before(some[i], some[at - 1]));
                order_is_transitive(more[i], more[at - 1], more[at]);
            }
        }
    }
}

/// Refuse anchor rows that something is wrong with.
pub(crate) fn check_anchors(list: &Vec<(u64, Checkpoint)>) -> (checked: MirrorResult<()>)
    ensures
        match checked {
            Ok(()) => anchors_fault(anchors_view(list@)) is None,
            Err(error) => error@ is StoreInit && anchors_fault(anchors_view(list@)) == Some(error@),
        },
{
    let ghost listed = anchors_view(list@);
    let ghost bare = anchor_checkpoints(listed);
    let mut i: usize = 0;
    while i < list.len()
        invariant
            i <= list@.len(),
            listed == anchors_view(list@),
            forall|k: int| 0 <= k < i ==> (#[trigger] listed[k]).0 <= MAX_LEAVES,
        decreases list.len() - i,
    {
        assert(listed[i as int].0 == list@[i as int].0);
        if list[i].0 > MAX_LEAVES {
            return Err(
                MirrorError::StoreInit("a manifest entry index is out of range".to_owned()),
            );
        }
        i += 1;
    }
    let mut ordered: bool = true;
    i = 0;
    while i < list.len()
        invariant
            i <= list@.len(),
            listed == anchors_view(list@),
            bare == anchor_checkpoints(listed),
            forall|k: int| 0 <= k < listed.len() ==> (#[trigger] listed[k]).0 <= MAX_LEAVES,
            forall|k: int| 0 <= k < i ==> (#[trigger] listed[k]).1.tree_size <= MAX_LEAVES,
            ordered == in_weak_order(bare.take(i as int)),
        decreases list.len() - i,
    {
        assert(listed[i as int].1 == list@[i as int].1@);
        if list[i].1.tree_size > MAX_LEAVES {
            return Err(MirrorError::StoreInit("a tree size is out of range".to_owned()));
        }
        if i > 0 {
            if is_before(&list[i].1, &list[i - 1].1) {
                ordered = false;
            }
        }
        proof {
            one_more_in_weak_order(bare, i as int);
        }
        i += 1;
    }
    assert(bare.take(i as int) =~= bare);
    if !ordered {
        return Err(MirrorError::StoreInit("rotation rows are not in order".to_owned()));
    }
    Ok(())
}

/// Refuse rows of superseded anchors that something is wrong with.
pub(crate) fn check_superseded(list: &Vec<Checkpoint>) -> (checked: MirrorResult<()>)
    ensures
        match checked {
            Ok(()) => superseded_fault(checkpoints_view(list@)) is None,
            Err(error) => error@ is StoreInit && superseded_fault(checkpoints_view(list@)) == Some(error@),
        },
{
    let ghost listed = checkpoints_view(list@);
    let mut ordered: bool = true;
    let mut i: usize = 0;
    while i < list.len()
        invariant
            i <= list@.len(),
            listed == checkpoints_view(list@),
            forall|k: int| 0 <= k < i ==> (#[trigger] listed[k]).tree_size <= MAX_LEAVES,
            ordered == in_weak_order(listed.take(i as int)),
        decreases list.len() - i,
    {
        assert(listed[i as int] == list@[i as int]@);
        if list[i].tree_size > MAX_LEAVES {
            return Err(MirrorError::StoreInit("a tree size is out of range".to_owned()));
        }
        if i > 0 {
            if is_before(&list[i], &list[i - 1]) {
                ordered = false;
            }
        }
        proof {
            one_more_in_weak_order(listed, i as int);
        }
        i += 1;
    }
    assert(listed.take(i as int) =~= listed);
    if !ordered {
        return Err(MirrorError::StoreInit("superseded rows are not in order".to_owned()));
    }
    Ok(())
}

/// A list is in weak order with one more member exactly where it was before and the last does
/// not come before the member before it.
proof fn one_more_in_weak_order(list: Seq<CheckpointView>, at: int)
    requires
        0 <= at < list.len(),
    ensures
        in_weak_order(list.take(at + 1)) <==> in_weak_order(list.take(at)) && (at > 0
            ==> !comes_before(list[at], list[at - 1])),
{
    let some = list.take(at);
    let more = list.take(at + 1);
    assert forall|k: int| 0 <= k < at implies #[trigger] some[k] == more[k] by {}
    if in_weak_order(more) {
        assert forall|i: int, j: int| 0 <= i < j < some.len() implies !comes_before(
            #[trigger] some[j],
            #[trigger] some[i],
        ) by {
            assert(!comes_before(more[j], more[i]));
        }
        if at > 0 {
            assert(!comes_before(more[at], more[at - 1]));
        }
    }
    if in_weak_order(some) && (at > 0 ==> !comes_before(list[at], list[at - 1])) {
        assert forall|i: int, j: int| 0 <= i < j < more.len() implies !comes_before(
            #[trigger] more[j],
            #[trigger] more[i],
        ) by {
            if j < at {
                assert(!comes_before(some[j], some[i]));
            } else if i < at - 1 {
                assert(!comes_before(some[at - 1], some[i]));
                order_is_total(more[i], more[at - 1]);
                order_is_total(more[at - 1], more[at]);
                order_is_transitive(more[i], more[at - 1], more[at]);
                order_is_total(more[i], more[at]);
            }
        }
    }
}

// ---- what rows make a store ----

/// Rows make a store exactly where the entries are few enough to address, stand at the indexes
/// from 0 on, have an id each, and have leaf hashes of 32 octets where the nodes have to be made
/// again; and the checkpoints can be addressed and are in order, those of the series with a place
/// each.
pub proof fn rows_make_a_store_where_nothing_is_wrong(rows: Rows)
    ensures
        rows.fault() is None <==> {
            &&& rows.entries@.len() <= MAX_LEAVES
            &&& forall|i: int|
                0 <= i < rows.entries@.len() ==> (#[trigger] rows.entries@[i]).entry_index == i
            &&& forall|i: int, j: int|
                0 <= i < j < rows.entries@.len() ==> (#[trigger] rows.entries@[i]).entry_id@ != (
                #[trigger] rows.entries@[j]).entry_id@
            &&& rows.node_count == population(rows.entries@.len()) || forall|i: int|
                0 <= i < rows.entries@.len() ==> ((#[trigger] rows.entries@[i]).leaf_hash matches Some(
                    stored,
                ) ==> stored@.len() == 32)
            &&& forall|i: int|
                0 <= i < rows.checkpoints@.len() ==> (#[trigger] rows.checkpoints@[i]).tree_size
                    <= MAX_LEAVES
            &&& forall|i: int, j: int|
                0 <= i < j < rows.checkpoints@.len() ==> comes_before(
                    (#[trigger] rows.checkpoints@[i])@,
                    (#[trigger] rows.checkpoints@[j])@,
                )
            &&& forall|i: int|
                0 <= i < rows.anchors@.len() ==> (#[trigger] rows.anchors@[i]).0 <= MAX_LEAVES
                    && rows.anchors@[i].1.tree_size <= MAX_LEAVES
            &&& forall|i: int, j: int|
                0 <= i < j < rows.anchors@.len() ==> !comes_before(
                    (#[trigger] rows.anchors@[j]).1@,
                    (#[trigger] rows.anchors@[i]).1@,
                )
            &&& forall|i: int|
                0 <= i < rows.superseded@.len() ==> (#[trigger] rows.superseded@[i]).tree_size
                    <= MAX_LEAVES
            &&& forall|i: int, j: int|
                0 <= i < j < rows.superseded@.len() ==> !comes_before(
                    (#[trigger] rows.superseded@[j])@,
                    (#[trigger] rows.superseded@[i])@,
                )
        },
{
    let entries = rows.entries@;
    let series = checkpoints_view(rows.checkpoints@);
    let anchors = anchors_view(rows.anchors@);
    let bare = anchor_checkpoints(anchors);
    let superseded = checkpoints_view(rows.superseded@);
    entries_are_right_one_by_one(entries, rows.is_short());
    assert forall|i: int| 0 <= i < series.len() implies #[trigger] series[i]
        == rows.checkpoints@[i]@ by {}
    assert forall|i: int| 0 <= i < anchors.len() implies #[trigger] anchors[i] == (
        rows.anchors@[i].0,
        rows.anchors@[i].1@,
    ) && bare[i] == anchors[i].1 by {}
    assert forall|i: int| 0 <= i < superseded.len() implies #[trigger] superseded[i]
        == rows.superseded@[i]@ by {}
    if rows.fault() is None {
        assert forall|i: int| 0 <= i < rows.checkpoints@.len() implies (
        #[trigger] rows.checkpoints@[i]).tree_size <= MAX_LEAVES by {
            assert(series[i].tree_size <= MAX_LEAVES);
        }
        assert forall|i: int, j: int| 0 <= i < j < rows.checkpoints@.len() implies comes_before(
            (#[trigger] rows.checkpoints@[i])@,
            (#[trigger] rows.checkpoints@[j])@,
        ) by {
            assert(comes_before(series[i], series[j]));
        }
        assert forall|i: int| 0 <= i < rows.anchors@.len() implies (
        #[trigger] rows.anchors@[i]).0 <= MAX_LEAVES && rows.anchors@[i].1.tree_size
            <= MAX_LEAVES by {
            assert(anchors[i].0 <= MAX_LEAVES && anchors[i].1.tree_size <= MAX_LEAVES);
        }
        assert forall|i: int, j: int| 0 <= i < j < rows.anchors@.len() implies !comes_before(
            (#[trigger] rows.anchors@[j]).1@,
            (#[trigger] rows.anchors@[i]).1@,
        ) by {
            assert(!comes_before(bare[j], bare[i]));
        }
        assert forall|i: int| 0 <= i < rows.superseded@.len() implies (
        #[trigger] rows.superseded@[i]).tree_size <= MAX_LEAVES by {
            assert(superseded[i].tree_size <= MAX_LEAVES);
        }
        assert forall|i: int, j: int| 0 <= i < j < rows.superseded@.len() implies !comes_before(
            (#[trigger] rows.superseded@[j])@,
            (#[trigger] rows.superseded@[i])@,
        ) by {
            assert(!comes_before(superseded[j], superseded[i]));
        }
    }
}

/// Entry rows are right exactly where each of them is.
proof fn entries_are_right_one_by_one(rows: Seq<EntryRecord>, short: bool)
    ensures
        entries_fault(rows, short) is None <==> {
            &&& forall|i: int| 0 <= i < rows.len() ==> (#[trigger] rows[i]).entry_index == i
            &&& forall|i: int, j: int|
                0 <= i < j < rows.len() ==> (#[trigger] rows[i]).entry_id@ != (
                #[trigger] rows[j]).entry_id@
            &&& !short || forall|i: int|
                0 <= i < rows.len() ==> ((#[trigger] rows[i]).leaf_hash matches Some(stored)
                    ==> stored@.len() == 32)
        },
    decreases rows.len(),
{
    if rows.len() > 0 {
        let rest = rows.drop_last();
        let at = rows.len() - 1;
        entries_are_right_one_by_one(rest, short);
        assert forall|i: int| 0 <= i < rest.len() implies #[trigger] rows[i] == rest[i] by {}
        assert(rows[at] == rows.last());
        if entries_fault(rows, short) is None {
            assert forall|i: int, j: int| 0 <= i < j < rows.len() implies (
            #[trigger] rows[i]).entry_id@ != (#[trigger] rows[j]).entry_id@ by {
                if j < at {
                    assert(rest[i].entry_id@ != rest[j].entry_id@);
                }
            }
        } else if entries_fault(rest, short) is None {
            if rows[at].entry_index == at && !(exists|j: int|
                0 <= j < at && (#[trigger] rows[j]).entry_id@ == rows.last().entry_id@) {
                assert(rows[at].leaf_hash is Some);
            }
        }
    }
}

/// The staged rows of a store: an id is staged exactly where there is a row of it, with the bytes
/// of the last.
pub proof fn an_id_is_staged_as_its_last_row(rows: Seq<(String, Vec<u8>)>, id: Seq<char>)
    ensures
        staged_rows(rows).contains_key(id) <==> exists|i: int|
            0 <= i < rows.len() && (#[trigger] rows[i]).0@ == id,
        staged_rows(rows).contains_key(id) ==> exists|i: int|
            0 <= i < rows.len() && (#[trigger] rows[i]).0@ == id && staged_rows(rows)[id]
                == rows[i].1@ && forall|j: int|
                i < j < rows.len() ==> (#[trigger] rows[j]).0@ != id,
    decreases rows.len(),
{
    if rows.len() > 0 {
        let rest = rows.drop_last();
        let at = rows.len() - 1;
        an_id_is_staged_as_its_last_row(rest, id);
        assert forall|i: int| 0 <= i < rest.len() implies #[trigger] rows[i] == rest[i] by {}
        if rows.last().0@ == id {
            assert(rows[at].0@ == id);
        } else if staged_rows(rest).contains_key(id) {
            let i = choose|i: int|
                0 <= i < rest.len() && (#[trigger] rest[i]).0@ == id && staged_rows(rest)[id]
                    == rest[i].1@ && forall|j: int|
                    i < j < rest.len() ==> (#[trigger] rest[j]).0@ != id;
            assert(rows[i].0@ == id);
            assert forall|j: int| i < j < rows.len() implies (#[trigger] rows[j]).0@ != id by {
                if j < at {
                    assert(rows[j] == rest[j]);
                }
            }
        } else {
            assert forall|i: int| 0 <= i < rows.len() implies (#[trigger] rows[i]).0@ != id by {
                if i < at {
                    assert(rows[i] == rest[i]);
                }
            }
        }
    }
}

/// The nodes of a log are those of its pairs and one for each pair: a log of half as many entries,
/// rounded down, completes the rest.
pub proof fn nodes_are_those_of_the_pairs(count: nat)
    requires
        count <= u64::MAX,
    ensures
        population(0) == 0,
        population(1) == 0,
        population(count) == count / 2 + population(count / 2),
{
    assert(width(1) == 2) by {
        reveal_with_fuel(width, 2);
    }
    no_nodes_below_a_pair(0, 1);
    no_nodes_below_a_pair(1, 1);
    halving_lowers_the_level(count, 1);
}

/// Fewer leaves than a level is wide complete none of it nor above.
proof fn no_nodes_below_a_pair(count: nat, level: nat)
    requires
        count <= 1,
        level >= 1,
    ensures
        population_from(count, level) == 0,
    decreases 64 - level,
{
    width_is_monotone(1, level);
    reveal_with_fuel(width, 2);
    nothing_beyond(count, level);
}

/// The nodes from a level on are those of half as many leaves from the level below on.
proof fn halving_lowers_the_level(count: nat, level: nat)
    requires
        1 <= level <= 63,
        count <= u64::MAX,
    ensures
        population_from(count, level + 1) == population_from(count / 2, level),
    decreases 64 - level,
{
    width_is_positive(level);
    let w = width(level);
    assert(width(level + 1) == 2 * w);
    vstd::arithmetic::div_mod::lemma_div_denominator(count as int, 2, w as int);
    assert(count / (2 * w) == (count / 2) / w);
    if level == 63 {
        width_at_64();
        assert((count / 2) / w == 0) by (nonlinear_arith)
            requires
                count <= 0xffff_ffff_ffff_ffff,
                w == 0x8000_0000_0000_0000,
        ;
        assert(population_from(count / 2, 64) == 0);
    } else {
        halving_lowers_the_level(count, level + 1);
    }
}

/// The first wrong entry row is the one that is named: every row before it is right, and the
/// reason is that its index does not follow, that its id occurs before, or that its leaf hash has
/// not the length of one, in this order.
pub proof fn the_first_wrong_entry_row_is_named(rows: Seq<EntryRecord>, short: bool)
    ensures
        entries_fault(rows, short) matches Some(fault) ==> exists|i: int|
            0 <= i < rows.len() && entries_fault(#[trigger] rows.take(i), short) is None && if rows[
            i].entry_index != i {
                fault == Fault::StoreInit("entry rows are not contiguous"@)
            } else if exists|j: int|
                0 <= j < i && (#[trigger] rows[j]).entry_id@ == rows[i].entry_id@ {
                fault == Fault::StoreInit("an entry id occurs twice"@)
            } else {
                short && rows[i].leaf_hash is Some && rows[i].leaf_hash->0@.len() != 32 && fault
                    == Fault::StoreInit("a stored leaf hash is not 32 octets"@)
            },
    decreases rows.len(),
{
    if let Some(fault) = entries_fault(rows, short) {
        let rest = rows.drop_last();
        let at = rows.len() - 1;
        if entries_fault(rest, short) is Some {
            the_first_wrong_entry_row_is_named(rest, short);
            let i = choose|i: int|
                0 <= i < rest.len() && entries_fault(#[trigger] rest.take(i), short) is None
                    && if rest[i].entry_index != i {
                    fault == Fault::StoreInit("entry rows are not contiguous"@)
                } else if exists|j: int|
                    0 <= j < i && (#[trigger] rest[j]).entry_id@ == rest[i].entry_id@ {
                    fault == Fault::StoreInit("an entry id occurs twice"@)
                } else {
                    short && rest[i].leaf_hash is Some && rest[i].leaf_hash->0@.len() != 32
                        && fault == Fault::StoreInit("a stored leaf hash is not 32 octets"@)
                };
            assert(rest.take(i) =~= rows.take(i));
            assert(rest[i] == rows[i]);
            assert forall|j: int| 0 <= j < i implies #[trigger] rows[j] == rest[j] by {}
            if exists|j: int| 0 <= j < i && (#[trigger] rows[j]).entry_id@ == rows[i].entry_id@ {
                let j = choose|j: int|
                    0 <= j < i && (#[trigger] rows[j]).entry_id@ == rows[i].entry_id@;
                assert(rest[j].entry_id@ == rest[i].entry_id@);
            }
            if exists|j: int| 0 <= j < i && (#[trigger] rest[j]).entry_id@ == rest[i].entry_id@ {
                let j = choose|j: int|
                    0 <= j < i && (#[trigger] rest[j]).entry_id@ == rest[i].entry_id@;
                assert(rows[j].entry_id@ == rows[i].entry_id@);
            }
        } else {
            assert(rows.take(at) =~= rest);
            assert(rows[at] == rows.last());
        }
    }
}

/// Rows are checked in order, and the first list that something is wrong with decides: the entries,
/// then the series, then the anchors, then the superseded ones. Of a list of checkpoints a size or
/// an index that cannot be addressed is told before an order that is not kept.
pub proof fn the_first_wrong_list_decides(rows: Rows)
    ensures
        ({
            let series = checkpoints_view(rows.checkpoints@);
            let anchors = anchors_view(rows.anchors@);
            let superseded = checkpoints_view(rows.superseded@);
            if rows.entries@.len() > MAX_LEAVES {
                rows.fault() == Some(Fault::StoreInit("there are too many entry rows"@))
            } else if entries_fault(rows.entries@, rows.is_short()) is Some {
                rows.fault() == entries_fault(rows.entries@, rows.is_short())
            } else if exists|i: int|
                0 <= i < series.len() && (#[trigger] series[i]).tree_size > MAX_LEAVES {
                rows.fault() == Some(Fault::StoreInit("a tree size is out of range"@))
            } else if !in_series_order(series) {
                rows.fault() == Some(Fault::StoreInit("checkpoint rows are not in order"@))
            } else if exists|i: int|
                0 <= i < anchors.len() && (#[trigger] anchors[i]).0 > MAX_LEAVES {
                rows.fault() == Some(Fault::StoreInit("a manifest entry index is out of range"@))
            } else if exists|i: int|
                0 <= i < anchors.len() && (#[trigger] anchors[i]).1.tree_size > MAX_LEAVES {
                rows.fault() == Some(Fault::StoreInit("a tree size is out of range"@))
            } else if !in_weak_order(anchor_checkpoints(anchors)) {
                rows.fault() == Some(Fault::StoreInit("rotation rows are not in order"@))
            } else if exists|i: int|
                0 <= i < superseded.len() && (#[trigger] superseded[i]).tree_size > MAX_LEAVES {
                rows.fault() == Some(Fault::StoreInit("a tree size is out of range"@))
            } else if !in_weak_order(superseded) {
                rows.fault() == Some(Fault::StoreInit("superseded rows are not in order"@))
            } else {
                rows.fault() is None
            }
        }),
{
}

} // verus!
