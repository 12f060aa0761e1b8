//! Checkpoint objects, their order, and the two sorted lists a store keeps of them.

use vstd::prelude::*;

use crate::error::{gives, refuses, Fault, MirrorError, MirrorResult};
use crate::text::{
    is_text_before, same_text, text_before, text_order_is_total, text_order_is_transitive,
};

verus! {

/// A signed checkpoint of the log, field for field.
#[derive(Debug, PartialEq, Eq)]
pub struct Checkpoint {
    /// `sha256:` and the hexadecimal digits of the log's origin id.
    pub log_id: String,
    /// How many entries the checkpoint commits.
    pub tree_size: u64,
    /// `sha256:` and the hexadecimal digits of the root over those entries.
    pub root_hash: String,
    /// When it was made, with exactly nine fractional digits.
    pub checkpoint_time: String,
    /// `sha256:` and the hexadecimal digits of the signing key's id.
    pub key_id: String,
    /// `base64:` and the signature.
    pub signature: String,
}

/// A checkpoint with its texts as character sequences.
pub ghost struct CheckpointView {
    pub log_id: Seq<char>,
    pub tree_size: u64,
    pub root_hash: Seq<char>,
    pub checkpoint_time: Seq<char>,
    pub key_id: Seq<char>,
    pub signature: Seq<char>,
}

impl View for Checkpoint {
    type V = CheckpointView;

    open spec fn view(&self) -> CheckpointView {
        CheckpointView {
            log_id: self.log_id@,
            tree_size: self.tree_size,
            root_hash: self.root_hash@,
            checkpoint_time: self.checkpoint_time@,
            key_id: self.key_id@,
            signature: self.signature@,
        }
    }
}

impl Clone for Checkpoint {
    fn clone(&self) -> (copy: Self)
        ensures
            copy@ == self@,
    {
        Checkpoint {
            log_id: self.log_id.clone(),
            tree_size: self.tree_size,
            root_hash: self.root_hash.clone(),
            checkpoint_time: self.checkpoint_time.clone(),
            key_id: self.key_id.clone(),
            signature: self.signature.clone(),
        }
    }
}

/// The outcome of storing something.
#[derive(Debug, Clone, Copy, PartialEq, Eq)]
pub enum InsertOutcome {
    /// It was newly stored.
    Inserted,
    /// It was stored already, or is superseded by what is.
    AlreadyPresent,
}

/// A list of checkpoints by their views.
pub open spec fn checkpoints_view(list: Seq<Checkpoint>) -> Seq<CheckpointView> {
    Seq::new(list.len(), |i: int| list[i]@)
}

/// A list of rotation anchors by their views: the rotating manifest's entry index, and the
/// checkpoint that anchors the rotation.
pub open spec fn anchors_view(list: Seq<(u64, Checkpoint)>) -> Seq<(u64, CheckpointView)> {
    Seq::new(list.len(), |i: int| (list[i].0, list[i].1@))
}

/// Whether two checkpoints agree in every field.
pub(crate) fn same_checkpoint(a: &Checkpoint, b: &Checkpoint) -> (same: bool)
    ensures
        same == (a@ == b@),
{
    a.tree_size == b.tree_size && same_text(a.log_id.as_str(), b.log_id.as_str()) && same_text(
        a.root_hash.as_str(),
        b.root_hash.as_str(),
    ) && same_text(a.checkpoint_time.as_str(), b.checkpoint_time.as_str()) && same_text(
        a.key_id.as_str(),
        b.key_id.as_str(),
    ) && same_text(a.signature.as_str(), b.signature.as_str())
}

/// A copy of a list of checkpoints.
pub(crate) fn copy_checkpoints(list: &Vec<Checkpoint>) -> (copy: Vec<Checkpoint>)
    ensures
        checkpoints_view(copy@) == checkpoints_view(list@),
{
    let mut copy: Vec<Checkpoint> = Vec::new();
    let mut i: usize = 0;
    while i < list.len()
        invariant
            i <= list@.len(),
            checkpoints_view(copy@) == checkpoints_view(list@).take(i as int),
        decreases list.len() - i,
    {
        let ghost before = checkpoints_view(copy@);
        copy.push(list[i].clone());
        assert(checkpoints_view(copy@) =~= before.push(list@[i as int]@));
        i += 1;
    }
    copy
}

/// A copy of a list of rotation anchors.
pub(crate) fn copy_anchors(list: &Vec<(u64, Checkpoint)>) -> (copy: Vec<(u64, Checkpoint)>)
    ensures
        anchors_view(copy@) == anchors_view(list@),
{
    let mut copy: Vec<(u64, Checkpoint)> = Vec::new();
    let mut i: usize = 0;
    while i < list.len()
        invariant
            i <= list@.len(),
            anchors_view(copy@) == anchors_view(list@).take(i as int),
        decreases list.len() - i,
    {
        let ghost before = anchors_view(copy@);
        copy.push((list[i].0, list[i].1.clone()));
        assert(anchors_view(copy@) =~= before.push((list@[i as int].0, list@[i as int].1@)));
        i += 1;
    }
    copy
}

// ---- the order ----

/// The order of the series: by tree size, then by time.
pub open spec fn comes_before(a: CheckpointView, b: CheckpointView) -> bool {
    a.tree_size < b.tree_size || (a.tree_size == b.tree_size && text_before(
        a.checkpoint_time,
        b.checkpoint_time,
    ))
}

/// Whether two checkpoints have one place in the order: the same tree size and time.
pub open spec fn same_place(a: CheckpointView, b: CheckpointView) -> bool {
    a.tree_size == b.tree_size && a.checkpoint_time == b.checkpoint_time
}

/// Of two checkpoints exactly one comes before the other, or they have one place.
pub proof fn order_is_total(a: CheckpointView, b: CheckpointView)
    ensures
        comes_before(a, b) || comes_before(b, a) || same_place(a, b),
        !(comes_before(a, b) && comes_before(b, a)),
        same_place(a, b) ==> !comes_before(a, b),
{
    text_order_is_total(a.checkpoint_time, b.checkpoint_time);
}

/// The order is transitive.
pub proof fn order_is_transitive(a: CheckpointView, b: CheckpointView, c: CheckpointView)
    requires
        comes_before(a, b) || same_place(a, b),
        comes_before(b, c) || same_place(b, c),
    ensures
        comes_before(a, c) || same_place(a, c),
        comes_before(a, b) || comes_before(b, c) ==> comes_before(a, c),
{
    if text_before(a.checkpoint_time, b.checkpoint_time) && text_before(
        b.checkpoint_time,
        c.checkpoint_time,
    ) {
        text_order_is_transitive(a.checkpoint_time, b.checkpoint_time, c.checkpoint_time);
    }
}

/// Whether `a` comes before `b` in the series.
pub(crate) fn is_before(a: &Checkpoint, b: &Checkpoint) -> (before: bool)
    ensures
        before == comes_before(a@, b@),
{
    a.tree_size < b.tree_size || (a.tree_size == b.tree_size && is_text_before(
        a.checkpoint_time.as_str(),
        b.checkpoint_time.as_str(),
    ))
}

/// Whether each member comes before every later one, so that no two have one place.
pub open spec fn in_series_order(list: Seq<CheckpointView>) -> bool {
    forall|i: int, j: int|
        0 <= i < j < list.len() ==> comes_before(#[trigger] list[i], #[trigger] list[j])
}

/// Whether no member comes after a later one.
pub open spec fn in_weak_order(list: Seq<CheckpointView>) -> bool {
    forall|i: int, j: int|
        0 <= i < j < list.len() ==> !comes_before(#[trigger] list[j], #[trigger] list[i])
}

/// How many members stand before the place of `cp`: up to the last one that comes before it.
pub open spec fn rank(list: Seq<CheckpointView>, cp: CheckpointView) -> nat
    decreases list.len(),
{
    if list.len() == 0 {
        0
    } else if comes_before(list.last(), cp) {
        list.len()
    } else {
        rank(list.drop_last(), cp)
    }
}

/// The rank parts a sorted list: what stands before it comes before `cp`, and nothing from it
/// on does.
pub proof fn rank_parts_the_list(list: Seq<CheckpointView>, cp: CheckpointView)
    requires
        in_weak_order(list),
    ensures
        rank(list, cp) <= list.len(),
        forall|i: int| 0 <= i < rank(list, cp) ==> comes_before(#[trigger] list[i], cp),
        forall|i: int| rank(list, cp) <= i < list.len() ==> !comes_before(#[trigger] list[i], cp),
    decreases list.len(),
{
    if list.len() > 0 {
        if comes_before(list.last(), cp) {
            assert forall|i: int| 0 <= i < list.len() implies comes_before(
                #[trigger] list[i],
                cp,
            ) by {
                order_is_total(list[i], list.last());
                order_is_transitive(list[i], list.last(), cp);
            }
        } else {
            let rest = list.drop_last();
            rank_parts_the_list(rest, cp);
            assert forall|i: int| rank(list, cp) <= i < list.len() implies !comes_before(
                #[trigger] list[i],
                cp,
            ) by {
                if i < rest.len() {
                    assert(list[i] == rest[i]);
                }
            }
            assert forall|i: int| 0 <= i < rank(list, cp) implies comes_before(
                #[trigger] list[i],
                cp,
            ) by {
                assert(list[i] == rest[i]);
            }
        }
    }
}

/// A strictly ordered list is weakly ordered.
pub proof fn series_order_is_weak_order(list: Seq<CheckpointView>)
    requires
        in_series_order(list),
    ensures
        in_weak_order(list),
{
    assert forall|i: int, j: int| 0 <= i < j < list.len() implies !comes_before(
        #[trigger] list[j],
        #[trigger] list[i],
    ) by {
        order_is_total(list[i], list[j]);
    }
}

/// Inserting a checkpoint at its rank keeps the order.
pub proof fn inserting_at_rank_keeps_weak_order(list: Seq<CheckpointView>, cp: CheckpointView)
    requires
        in_weak_order(list),
    ensures
        in_weak_order(list.insert(rank(list, cp) as int, cp)),
{
    rank_parts_the_list(list, cp);
    let r = rank(list, cp) as int;
    let more = list.insert(r, cp);
    assert forall|i: int, j: int| 0 <= i < j < more.len() implies !comes_before(
        #[trigger] more[j],
        #[trigger] more[i],
    ) by {
        let below = if j < r { list[j] } else if j == r { cp } else { list[j - 1] };
        let above = if i < r { list[i] } else if i == r { cp } else { list[i - 1] };
        assert(more[j] == below && more[i] == above);
        order_is_total(below, above);
    }
}

/// Inserting a checkpoint at its rank keeps the strict order where its place is free.
pub proof fn inserting_at_rank_keeps_series_order(list: Seq<CheckpointView>, cp: CheckpointView)
    requires
        in_series_order(list),
        member_at(list, cp.tree_size, cp.checkpoint_time) is None,
    ensures
        in_series_order(list.insert(rank(list, cp) as int, cp)),
{
    series_order_is_weak_order(list);
    rank_parts_the_list(list, cp);
    member_at_finds(list, cp.tree_size, cp.checkpoint_time);
    let r = rank(list, cp) as int;
    let more = list.insert(r, cp);
    assert forall|i: int, j: int| 0 <= i < j < more.len() implies comes_before(
        #[trigger] more[i],
        #[trigger] more[j],
    ) by {
        let above = if j < r { list[j] } else if j == r { cp } else { list[j - 1] };
        let below = if i < r { list[i] } else if i == r { cp } else { list[i - 1] };
        assert(more[j] == above && more[i] == below);
        order_is_total(below, above);
    }
}

// ---- the series ----

/// The member of a series with a tree size and a time.
pub open spec fn member_at(list: Seq<CheckpointView>, tree_size: u64, time: Seq<char>) -> Option<
    CheckpointView,
>
    decreases list.len(),
{
    if list.len() == 0 {
        None
    } else if list[0].tree_size == tree_size && list[0].checkpoint_time == time {
        Some(list[0])
    } else {
        member_at(list.drop_first(), tree_size, time)
    }
}

/// [`member_at`] finds a member wherever there is one.
pub proof fn member_at_finds(list: Seq<CheckpointView>, tree_size: u64, time: Seq<char>)
    ensures
        match member_at(list, tree_size, time) {
            Some(found) => found.tree_size == tree_size && found.checkpoint_time == time
                && list.contains(found),
            None => forall|i: int|
                0 <= i < list.len() ==> !((#[trigger] list[i]).tree_size == tree_size
                    && list[i].checkpoint_time == time),
        },
    decreases list.len(),
{
    if list.len() > 0 {
        let rest = list.drop_first();
        member_at_finds(rest, tree_size, time);
        assert forall|i: int| 0 < i < list.len() implies #[trigger] list[i] == rest[i - 1] by {}
        if let Some(found) = member_at(rest, tree_size, time) {
            if !(list[0].tree_size == tree_size && list[0].checkpoint_time == time) {
                let k = choose|k: int| 0 <= k < rest.len() && rest[k] == found;
                assert(list[k + 1] == found);
            }
        }
    }
}

/// The last member of a tree size: with the series in order, the one with the latest time.
pub open spec fn latest_at(list: Seq<CheckpointView>, tree_size: u64) -> Option<CheckpointView>
    decreases list.len(),
{
    if list.len() == 0 {
        None
    } else if list.last().tree_size == tree_size {
        Some(list.last())
    } else {
        latest_at(list.drop_last(), tree_size)
    }
}

/// In an ordered series [`latest_at`] is the member of the size that every other one of the
/// size comes before.
pub proof fn the_latest_member_has_the_greatest_time(list: Seq<CheckpointView>, tree_size: u64)
    requires
        in_series_order(list),
    ensures
        match latest_at(list, tree_size) {
            Some(found) => {
                &&& found.tree_size == tree_size
                &&& list.contains(found)
                &&& forall|i: int|
                    0 <= i < list.len() && (#[trigger] list[i]).tree_size == tree_size ==> list[i]
                        == found || comes_before(list[i], found)
            },
            None => forall|i: int| 0 <= i < list.len() ==> (#[trigger] list[i]).tree_size != tree_size,
        },
    decreases list.len(),
{
    if list.len() > 0 {
        let rest = list.drop_last();
        if list.last().tree_size == tree_size {
            assert(list.contains(list.last()));
        } else {
            the_latest_member_has_the_greatest_time(rest, tree_size);
            assert forall|i: int| 0 <= i < rest.len() implies #[trigger] list[i] == rest[i] by {}
            if let Some(found) = latest_at(rest, tree_size) {
                let k = choose|k: int| 0 <= k < rest.len() && rest[k] == found;
                assert(list[k] == found);
            }
        }
    }
}

/// Offering a checkpoint to a series: a free place takes it, a place with the same checkpoint
/// keeps it, and a place with another one refuses it.
pub open spec fn offered(list: Seq<CheckpointView>, cp: CheckpointView) -> Result<
    (Seq<CheckpointView>, InsertOutcome),
    Fault,
> {
    match member_at(list, cp.tree_size, cp.checkpoint_time) {
        Some(existing) => if existing == cp {
            Ok((list, InsertOutcome::AlreadyPresent))
        } else {
            Err(
                Fault::SeriesMemberConflict {
                    tree_size: cp.tree_size,
                    checkpoint_time: cp.checkpoint_time,
                },
            )
        },
        None => Ok((list.insert(rank(list, cp) as int, cp), InsertOutcome::Inserted)),
    }
}

/// Find the member of a series with a tree size and a time.
pub(crate) fn find_member<'a>(list: &'a Vec<Checkpoint>, tree_size: u64, time: &str) -> (found:
    Option<&'a Checkpoint>)
    ensures
        match found {
            Some(cp) => member_at(checkpoints_view(list@), tree_size, time@) == Some(cp@),
            None => member_at(checkpoints_view(list@), tree_size, time@) is None,
        },
{
    let ghost listed = checkpoints_view(list@);
    let mut i: usize = 0;
    assert(listed.skip(0) =~= listed);
    while i < list.len()
        invariant
            i <= list@.len(),
            listed == checkpoints_view(list@),
            member_at(listed, tree_size, time@) == member_at(
                listed.skip(i as int),
                tree_size,
                time@,
            ),
        decreases list.len() - i,
    {
        assert(listed.skip(i as int).drop_first() =~= listed.skip(i + 1));
        assert(listed.skip(i as int)[0] == list@[i as int]@);
        if list[i].tree_size == tree_size && same_text(list[i].checkpoint_time.as_str(), time) {
            return Some(&list[i]);
        }
        i += 1;
    }
    None
}

/// The place of `cp` in a series.
fn find_rank(list: &Vec<Checkpoint>, cp: &Checkpoint) -> (at: usize)
    ensures
        at == rank(checkpoints_view(list@), cp@),
        at <= list@.len(),
{
    let ghost listed = checkpoints_view(list@);
    let mut i: usize = list.len();
    assert(listed.take(i as int) =~= listed);
    while i > 0
        invariant
            i <= list@.len(),
            listed == checkpoints_view(list@),
            rank(listed, cp@) == rank(listed.take(i as int), cp@),
        decreases i,
    {
        assert(listed.take(i as int).drop_last() =~= listed.take(i - 1));
        assert(listed.take(i as int).last() == list@[i - 1]@);
        if is_before(&list[i - 1], cp) {
            return i;
        }
        i -= 1;
    }
    0
}

/// Offer a checkpoint to a series.
pub(crate) fn offer(list: &mut Vec<Checkpoint>, cp: &Checkpoint) -> (outcome: MirrorResult<
    InsertOutcome,
>)
    ensures
        match outcome {
            Ok(o) => gives(
                offered(checkpoints_view(old(list)@), cp@),
                (checkpoints_view(final(list)@), o),
            ),
            Err(error) => refuses(offered(checkpoints_view(old(list)@), cp@), error),
        },
        outcome is Err ==> *final(list) == *old(list),
{
    match find_member(list, cp.tree_size, cp.checkpoint_time.as_str()) {
        Some(existing) => {
            if same_checkpoint(existing, cp) {
                Ok(InsertOutcome::AlreadyPresent)
            } else {
                Err(
                    MirrorError::SeriesMemberConflict {
                        tree_size: cp.tree_size,
                        checkpoint_time: cp.checkpoint_time.clone(),
                    },
                )
            }
        },
        None => {
            let at: usize = find_rank(list, cp);
            let ghost before = checkpoints_view(list@);
            list.insert(at, cp.clone());
            assert(checkpoints_view(list@) =~= before.insert(at as int, cp@));
            Ok(InsertOutcome::Inserted)
        },
    }
}

// ---- rotation anchors ----

/// The checkpoints of a list of anchors.
pub open spec fn anchor_checkpoints(list: Seq<(u64, CheckpointView)>) -> Seq<CheckpointView> {
    Seq::new(list.len(), |i: int| list[i].1)
}

/// The first anchor of a rotation: with the list in order, the one no other of the rotation
/// comes before.
pub open spec fn anchor_for(list: Seq<(u64, CheckpointView)>, index: u64) -> Option<CheckpointView>
    decreases list.len(),
{
    if list.len() == 0 {
        None
    } else if list[0].0 == index {
        Some(list[0].1)
    } else {
        anchor_for(list.drop_first(), index)
    }
}

/// The anchor of a rotation with a tree size and a time.
pub open spec fn anchor_at(
    list: Seq<(u64, CheckpointView)>,
    index: u64,
    tree_size: u64,
    time: Seq<char>,
) -> Option<CheckpointView>
    decreases list.len(),
{
    if list.len() == 0 {
        None
    } else if list[0].0 == index && list[0].1.tree_size == tree_size && list[0].1.checkpoint_time
        == time {
        Some(list[0].1)
    } else {
        anchor_at(list.drop_first(), index, tree_size, time)
    }
}

/// Offering an anchor for a rotation: a place held by the same checkpoint keeps it, one held by
/// another refuses it; else it is recorded only where it comes before every anchor held.
pub open spec fn anchored(list: Seq<(u64, CheckpointView)>, index: u64, cp: CheckpointView) -> Result<
    (Seq<(u64, CheckpointView)>, InsertOutcome),
    Fault,
> {
    match anchor_at(list, index, cp.tree_size, cp.checkpoint_time) {
        Some(existing) => if existing == cp {
            Ok((list, InsertOutcome::AlreadyPresent))
        } else {
            Err(
                Fault::SeriesMemberConflict {
                    tree_size: cp.tree_size,
                    checkpoint_time: cp.checkpoint_time,
                },
            )
        },
        None => match anchor_for(list, index) {
            Some(held) if !comes_before(cp, held) => Ok((list, InsertOutcome::AlreadyPresent)),
            _ => Ok(
                (
                    list.insert(rank(anchor_checkpoints(list), cp) as int, (index, cp)),
                    InsertOutcome::Inserted,
                ),
            ),
        },
    }
}

/// Find the first anchor of a rotation.
pub(crate) fn find_anchor<'a>(list: &'a Vec<(u64, Checkpoint)>, index: u64) -> (found: Option<
    &'a Checkpoint,
>)
    ensures
        match found {
            Some(cp) => anchor_for(anchors_view(list@), index) == Some(cp@),
            None => anchor_for(anchors_view(list@), index) is None,
        },
{
    let ghost listed = anchors_view(list@);
    let mut i: usize = 0;
    assert(listed.skip(0) =~= listed);
    while i < list.len()
        invariant
            i <= list@.len(),
            listed == anchors_view(list@),
            anchor_for(listed, index) == anchor_for(listed.skip(i as int), index),
        decreases list.len() - i,
    {
        assert(listed.skip(i as int).drop_first() =~= listed.skip(i + 1));
        assert(listed.skip(i as int)[0] == (list@[i as int].0, list@[i as int].1@));
        if list[i].0 == index {
            return Some(&list[i].1);
        }
        i += 1;
    }
    None
}

/// Find the anchor of a rotation with a tree size and a time.
fn find_anchor_at<'a>(list: &'a Vec<(u64, Checkpoint)>, index: u64, tree_size: u64, time: &str) -> (found:
    Option<&'a Checkpoint>)
    ensures
        match found {
            Some(cp) => anchor_at(anchors_view(list@), index, tree_size, time@) == Some(cp@),
            None => anchor_at(anchors_view(list@), index, tree_size, time@) is None,
        },
{
    let ghost listed = anchors_view(list@);
    let mut i: usize = 0;
    assert(listed.skip(0) =~= listed);
    while i < list.len()
        invariant
            i <= list@.len(),
            listed == anchors_view(list@),
            anchor_at(listed, index, tree_size, time@) == anchor_at(
                listed.skip(i as int),
                index,
                tree_size,
                time@,
            ),
        decreases list.len() - i,
    {
        assert(listed.skip(i as int).drop_first() =~= listed.skip(i + 1));
        assert(listed.skip(i as int)[0] == (list@[i as int].0, list@[i as int].1@));
        if list[i].0 == index && list[i].1.tree_size == tree_size && same_text(
            list[i].1.checkpoint_time.as_str(),
            time,
        ) {
            return Some(&list[i].1);
        }
        i += 1;
    }
    None
}

/// The place of `cp` among the anchors.
fn find_anchor_rank(list: &Vec<(u64, Checkpoint)>, cp: &Checkpoint) -> (at: usize)
    ensures
        at == rank(anchor_checkpoints(anchors_view(list@)), cp@),
        at <= list@.len(),
{
    let ghost listed = anchor_checkpoints(anchors_view(list@));
    let mut i: usize = list.len();
    assert(listed.take(i as int) =~= listed);
    while i > 0
        invariant
            i <= list@.len(),
            listed == anchor_checkpoints(anchors_view(list@)),
            rank(listed, cp@) == rank(listed.take(i as int), cp@),
        decreases i,
    {
        assert(listed.take(i as int).drop_last() =~= listed.take(i - 1));
        assert(listed.take(i as int).last() == list@[i - 1].1@);
        if is_before(&list[i - 1].1, cp) {
            return i;
        }
        i -= 1;
    }
    0
}

/// Offer an anchor for a rotation.
fn anchor(list: &mut Vec<(u64, Checkpoint)>, index: u64, cp: &Checkpoint) -> (outcome:
    MirrorResult<InsertOutcome>)
    ensures
        match outcome {
            Ok(o) => gives(
                anchored(anchors_view(old(list)@), index, cp@),
                (anchors_view(final(list)@), o),
            ),
            Err(error) => refuses(anchored(anchors_view(old(list)@), index, cp@), error),
        },
        outcome is Err ==> *final(list) == *old(list),
{
    if let Some(existing) = find_anchor_at(
        list,
        index,
        cp.tree_size,
        cp.checkpoint_time.as_str(),
    ) {
        return if same_checkpoint(existing, cp) {
            Ok(InsertOutcome::AlreadyPresent)
        } else {
            Err(
                MirrorError::SeriesMemberConflict {
                    tree_size: cp.tree_size,
                    checkpoint_time: cp.checkpoint_time.clone(),
                },
            )
        };
    }
    if let Some(held) = find_anchor(list, index) {
        if !is_before(cp, held) {
            return Ok(InsertOutcome::AlreadyPresent);
        }
    }
    let at: usize = find_anchor_rank(list, cp);
    let ghost before = anchors_view(list@);
    list.insert(at, (index, cp.clone()));
    assert(anchors_view(list@) =~= before.insert(at as int, (index, cp@)));
    Ok(InsertOutcome::Inserted)
}

// ---- superseded anchors ----

/// Whether a list holds a checkpoint of the size and the root of another.
pub open spec fn holds_root(list: Seq<CheckpointView>, cp: CheckpointView) -> bool {
    exists|i: int|
        0 <= i < list.len() && (#[trigger] list[i]).tree_size == cp.tree_size && list[i].root_hash
            == cp.root_hash
}

/// The superseded anchors after one more checkpoint was accepted: it is kept where nothing else
/// that is held shows that its root was signed for its size.
pub open spec fn superseded_after(
    series: Seq<CheckpointView>,
    anchors: Seq<(u64, CheckpointView)>,
    superseded: Seq<CheckpointView>,
    cp: CheckpointView,
) -> Seq<CheckpointView> {
    if holds_root(series, cp) || holds_root(anchor_checkpoints(anchors), cp) || holds_root(
        superseded,
        cp,
    ) {
        superseded
    } else {
        superseded.insert(rank(superseded, cp) as int, cp)
    }
}

/// Two lists in one contain what either contains.
pub(crate) proof fn joined_contains(a: Seq<CheckpointView>, b: Seq<CheckpointView>)
    ensures
        forall|x: CheckpointView| #[trigger] (a + b).contains(x) <==> a.contains(x) || b.contains(x),
{
    assert forall|x: CheckpointView| #[trigger] (a + b).contains(x) <==> a.contains(x) || b.contains(
        x,
    ) by {
        if a.contains(x) {
            let k = choose|k: int| 0 <= k < a.len() && a[k] == x;
            assert((a + b)[k] == x);
        }
        if b.contains(x) {
            let k = choose|k: int| 0 <= k < b.len() && b[k] == x;
            assert((a + b)[k + a.len()] == x);
        }
        if (a + b).contains(x) {
            let k = choose|k: int| 0 <= k < (a + b).len() && (a + b)[k] == x;
            if k < a.len() {
                assert(a[k] == x);
            } else {
                assert(b[k - a.len()] == x);
            }
        }
    }
}

/// What a list contained it contains with one more member inserted, and that member.
pub(crate) proof fn inserted_contains(list: Seq<CheckpointView>, at: int, cp: CheckpointView)
    requires
        0 <= at <= list.len(),
    ensures
        list.insert(at, cp).contains(cp),
        forall|x: CheckpointView| #[trigger]
            list.contains(x) ==> list.insert(at, cp).contains(x),
{
    let more = list.insert(at, cp);
    assert(more[at] == cp);
    assert forall|x: CheckpointView| #[trigger] list.contains(x) implies more.contains(x) by {
        let k = choose|k: int| 0 <= k < list.len() && list[k] == x;
        assert(more[if k < at { k } else { k + 1 }] == x);
    }
}

/// Whether a list holds a checkpoint of the size and the root of another.
fn finds_root(list: &Vec<Checkpoint>, cp: &Checkpoint) -> (found: bool)
    ensures
        found == holds_root(checkpoints_view(list@), cp@),
{
    let ghost listed = checkpoints_view(list@);
    let mut i: usize = 0;
    while i < list.len()
        invariant
            i <= list@.len(),
            listed == checkpoints_view(list@),
            forall|k: int|
                0 <= k < i ==> !((#[trigger] listed[k]).tree_size == cp@.tree_size
                    && listed[k].root_hash == cp@.root_hash),
        decreases list.len() - i,
    {
        assert(listed[i as int] == list@[i as int]@);
        if list[i].tree_size == cp.tree_size && same_text(
            list[i].root_hash.as_str(),
            cp.root_hash.as_str(),
        ) {
            return true;
        }
        i += 1;
    }
    false
}

/// The checkpoints of a list of anchors.
pub(crate) fn bare_anchors(list: &Vec<(u64, Checkpoint)>) -> (bare: Vec<Checkpoint>)
    ensures
        checkpoints_view(bare@) == anchor_checkpoints(anchors_view(list@)),
{
    let ghost listed = anchor_checkpoints(anchors_view(list@));
    let mut bare: Vec<Checkpoint> = Vec::new();
    let mut i: usize = 0;
    while i < list.len()
        invariant
            i <= list@.len(),
            listed == anchor_checkpoints(anchors_view(list@)),
            checkpoints_view(bare@) == listed.take(i as int),
        decreases list.len() - i,
    {
        let ghost before = checkpoints_view(bare@);
        bare.push(list[i].1.clone());
        assert(checkpoints_view(bare@) =~= before.push(list@[i as int].1@));
        assert(listed.take(i + 1) =~= before.push(list@[i as int].1@));
        i += 1;
    }
    assert(listed.take(i as int) =~= listed);
    bare
}

/// Offer an anchor for a rotation, and keep it among the superseded where nothing else shows
/// that its root was signed.
pub(crate) fn anchor_or_keep(
    series: &Vec<Checkpoint>,
    anchors: &mut Vec<(u64, Checkpoint)>,
    superseded: &mut Vec<Checkpoint>,
    index: u64,
    cp: &Checkpoint,
) -> (outcome: MirrorResult<InsertOutcome>)
    ensures
        match outcome {
            Ok(o) => gives(
                anchored(anchors_view(old(anchors)@), index, cp@),
                (anchors_view(final(anchors)@), o),
            ) && checkpoints_view(final(superseded)@) == superseded_after(
                checkpoints_view(series@),
                anchors_view(final(anchors)@),
                checkpoints_view(old(superseded)@),
                cp@,
            ),
            Err(error) => refuses(anchored(anchors_view(old(anchors)@), index, cp@), error)
                && *final(anchors) == *old(anchors) && *final(superseded) == *old(superseded),
        },
{
    let done: InsertOutcome = anchor(anchors, index, cp)?;
    let bare: Vec<Checkpoint> = bare_anchors(anchors);
    if !finds_root(series, cp) && !finds_root(&bare, cp) && !finds_root(superseded, cp) {
        let at: usize = find_rank(superseded, cp);
        let ghost before = checkpoints_view(superseded@);
        superseded.insert(at, cp.clone());
        assert(checkpoints_view(superseded@) =~= before.insert(at as int, cp@));
    }
    Ok(done)
}

/// An anchor that is found at a place is one of the list, and none is found where there is none.
pub proof fn a_found_anchor_is_listed(
    list: Seq<(u64, CheckpointView)>,
    index: u64,
    tree_size: u64,
    time: Seq<char>,
)
    ensures
        match anchor_at(list, index, tree_size, time) {
            Some(found) => exists|k: int|
                0 <= k < list.len() && #[trigger] list[k] == (index, found) && found.tree_size
                    == tree_size && found.checkpoint_time == time,
            None => forall|k: int|
                0 <= k < list.len() ==> !((#[trigger] list[k]).0 == index && list[k].1.tree_size
                    == tree_size && list[k].1.checkpoint_time == time),
        },
    decreases list.len(),
{
    if list.len() > 0 {
        let rest = list.drop_first();
        a_found_anchor_is_listed(rest, index, tree_size, time);
        assert forall|k: int| 0 < k < list.len() implies #[trigger] list[k] == rest[k - 1] by {}
        if list[0].0 == index && list[0].1.tree_size == tree_size && list[0].1.checkpoint_time
            == time {
            assert(list[0] == (index, list[0].1));
        } else if let Some(found) = anchor_at(rest, index, tree_size, time) {
            let k = choose|k: int|
                0 <= k < rest.len() && #[trigger] rest[k] == (index, found) && found.tree_size
                    == tree_size && found.checkpoint_time == time;
            assert(list[k + 1] == (index, found));
        }
    }
}

/// The anchor served for a rotation is one of those held for it, and no other held for it has a
/// smaller size, or the same size and an earlier time; there is none exactly where none is held.
pub proof fn the_served_anchor_is_the_earliest_held(list: Seq<(u64, CheckpointView)>, index: u64)
    requires
        in_weak_order(anchor_checkpoints(list)),
    ensures
        match anchor_for(list, index) {
            Some(served) => {
                &&& list.contains((index, served))
                &&& forall|k: int|
                    0 <= k < list.len() && (#[trigger] list[k]).0 == index ==> served.tree_size
                        <= list[k].1.tree_size && (served.tree_size == list[k].1.tree_size
                        ==> !text_before(list[k].1.checkpoint_time, served.checkpoint_time))
            },
            None => forall|k: int| 0 <= k < list.len() ==> (#[trigger] list[k]).0 != index,
        },
    decreases list.len(),
{
    if list.len() > 0 {
        let rest = list.drop_first();
        assert forall|i: int, j: int|
            0 <= i < j < anchor_checkpoints(rest).len() implies !comes_before(
            #[trigger] anchor_checkpoints(rest)[j],
            #[trigger] anchor_checkpoints(rest)[i],
        ) by {
            assert(anchor_checkpoints(rest)[i] == anchor_checkpoints(list)[i + 1]);
            assert(anchor_checkpoints(rest)[j] == anchor_checkpoints(list)[j + 1]);
        }
        the_served_anchor_is_the_earliest_held(rest, index);
        assert forall|k: int| 0 < k < list.len() implies #[trigger] list[k] == rest[k - 1] by {}
        if list[0].0 == index {
            assert(list[0] == (index, list[0].1));
            assert forall|k: int|
                0 <= k < list.len() && (#[trigger] list[k]).0 == index implies list[0].1.tree_size
                <= list[k].1.tree_size && (list[0].1.tree_size == list[k].1.tree_size
                ==> !text_before(list[k].1.checkpoint_time, list[0].1.checkpoint_time)) by {
                text_order_is_total(list[0].1.checkpoint_time, list[k].1.checkpoint_time);
                if k > 0 {
                    assert(!comes_before(
                        anchor_checkpoints(list)[k],
                        anchor_checkpoints(list)[0],
                    ));
                }
            }
        } else if let Some(served) = anchor_for(rest, index) {
            let m = choose|m: int| 0 <= m < rest.len() && rest[m] == (index, served);
            assert(list[m + 1] == (index, served));
        }
    }
}

} // verus!
