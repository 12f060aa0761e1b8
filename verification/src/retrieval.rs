//! Retrieval by entry id.

use vstd::prelude::*;

use crate::error::{gives, refuses, Fault, MirrorError, MirrorResult};
use crate::primitives::{entry_id_of, family_text, sha256};
use crate::store::{Store, StoreView, StoredEntry};
use crate::text::same_text;

verus! {

/// What retrieval returns: one entry, or that this store holds none under the id. Absence is a
/// fact about this store; it is no evidence that no such entry was ever anchored.
#[derive(Debug, Clone, PartialEq, Eq)]
pub enum Retrieved {
    /// The entry's position and its exact bytes.
    Present {
        /// The entry's position in the log.
        entry_index: u64,
        /// The exact bytes anchored as this entry.
        envelope: Vec<u8>,
    },
    /// No entry is held under the id.
    Absent,
}

/// [`Retrieved`] with its bytes as a sequence.
pub ghost enum RetrievedView {
    Present { entry_index: u64, envelope: Seq<u8> },
    Absent,
}

impl View for Retrieved {
    type V = RetrievedView;

    open spec fn view(&self) -> RetrievedView {
        match *self {
            Retrieved::Present { entry_index, envelope } => RetrievedView::Present {
                entry_index,
                envelope: envelope@,
            },
            Retrieved::Absent => RetrievedView::Absent,
        }
    }
}

impl StoreView {
    /// What retrieving an id gives: bytes that no longer hash to the id they are filed under
    /// are never served.
    pub open spec fn retrieving(self, entry_id: Seq<char>) -> Result<RetrievedView, Fault> {
        match self.index_of(entry_id) {
            None => Ok(RetrievedView::Absent),
            Some(index) => if family_text(sha256(self.entries[index].envelope)) != entry_id {
                Err(Fault::StoredEntryCorrupt { entry_id })
            } else {
                Ok(
                    RetrievedView::Present {
                        entry_index: index as u64,
                        envelope: self.entries[index].envelope,
                    },
                )
            },
        }
    }
}

/// Judge a stored entry against the id it is filed under, given the id of its bytes.
pub fn settle_retrieval(entry: StoredEntry, entry_id: &str, recomputed: &str) -> (retrieved:
    MirrorResult<Retrieved>)
    ensures
        match retrieved {
            Ok(found) => recomputed@ == entry_id@ && found@ == (RetrievedView::Present {
                entry_index: entry.entry_index,
                envelope: entry.envelope@,
            }),
            Err(error) => recomputed@ != entry_id@ && error@ == (Fault::StoredEntryCorrupt {
                entry_id: entry_id@,
            }),
        },
{
    if !same_text(recomputed, entry_id) {
        return Err(MirrorError::StoredEntryCorrupt { entry_id: entry_id.to_owned() });
    }
    Ok(Retrieved::Present { entry_index: entry.entry_index, envelope: entry.envelope })
}

/// Retrieve an entry by its id.
pub fn retrieve_by_id(store: &Store, entry_id: &str) -> (retrieved: MirrorResult<Retrieved>)
    requires
        store.wf(),
    ensures
        match retrieved {
            Ok(found) => gives(store@.retrieving(entry_id@), found@),
            Err(error) => refuses(store@.retrieving(entry_id@), error),
        },
{
    match store.get_entry_by_id(entry_id)? {
        None => Ok(Retrieved::Absent),
        Some(entry) => {
            let recomputed: String = entry_id_of(entry.envelope.as_slice());
            settle_retrieval(entry, entry_id, recomputed.as_str())
        },
    }
}

// ---- laws ----

/// An entry that was promoted is retrieved byte for byte at its index, and every entry that was
/// retrieved before still is.
pub proof fn a_promoted_entry_is_retrieved_exactly(store: StoreView, index: u64, id: Seq<char>)
    requires
        store.valid(),
        store.promoting(index, id) is Ok,
        id == family_text(sha256(store.staged[id])),
    ensures
        ({
            let after = store.promoting(index, id)->Ok_0.0;
            &&& after.retrieving(id) == Ok::<RetrievedView, Fault>(
                RetrievedView::Present { entry_index: index, envelope: store.staged[id] },
            )
            &&& forall|other: Seq<char>|
                (#[trigger] store.retrieving(other)) matches Ok(RetrievedView::Present { .. })
                    ==> after.retrieving(other) == store.retrieving(other)
        }),
{
    let after = store.promoting(index, id)->Ok_0.0;
    assert(after.entries[index as int].entry_id == id);
    assert(after.entries[index as int].envelope == store.staged[id]);
    let found = after.index_of(id)->0;
    assert(after.entries[found].entry_id == id);
    assert(found == index) by {
        if index < store.entries.len() {
            assert(after == store);
        } else {
            if found < store.entries.len() {
                assert(store.entries[found] == after.entries[found]);
                assert(store.index_of(id) is Some);
            }
        }
    }
    assert forall|other: Seq<char>|
        (#[trigger] store.retrieving(other)) matches Ok(
            RetrievedView::Present { .. },
        ) implies after.retrieving(other) == store.retrieving(other) by {
        let at = store.index_of(other)->0;
        assert(store.entries[at].entry_id == other);
        assert(after.entries[at] == store.entries[at]);
        let now = after.index_of(other)->0;
        assert(after.entries[now].entry_id == other);
        if now < store.entries.len() {
            assert(after.entries[now] == store.entries[now]);
        } else {
            assert(other == id);
            assert(store.index_of(id) is Some);
        }
    }
}

/// A store that holds canonical envelopes under their own ids never finds one corrupt: what it
/// holds under an id is retrieved.
pub proof fn content_addressed_entries_are_always_served(store: StoreView, id: Seq<char>)
    requires
        store.content_addressed(),
    ensures
        store.retrieving(id) is Ok,
        store.index_of(id) is Some <==> store.retrieving(id) matches Ok(
            RetrievedView::Present { .. },
        ),
{
    if store.index_of(id) is Some {
        let at = store.index_of(id)->0;
        assert(store.entries[at].entry_id == id);
    }
}

/// What retrieval gives, in full: nothing where no entry is filed under the id; the entry at its
/// index, byte for byte, where its bytes have that id; and a refusal where they no longer do.
pub proof fn retrieval_gives_the_entry_of_the_id(store: StoreView, id: Seq<char>, i: int)
    requires
        store.valid(),
    ensures
        (forall|k: int| 0 <= k < store.entries.len() ==> (#[trigger] store.entries[k]).entry_id
            != id) ==> store.retrieving(id) == Ok::<RetrievedView, Fault>(RetrievedView::Absent),
        0 <= i < store.entries.len() && store.entries[i].entry_id == id ==> store.retrieving(id)
            == if family_text(sha256(store.entries[i].envelope)) == id {
            Ok::<RetrievedView, Fault>(
                RetrievedView::Present {
                    entry_index: i as u64,
                    envelope: store.entries[i].envelope,
                },
            )
        } else {
            Err::<RetrievedView, Fault>(Fault::StoredEntryCorrupt { entry_id: id })
        },
{
    if let Some(at) = store.index_of(id) {
        assert(store.entries[at].entry_id == id);
        if 0 <= i < store.entries.len() && store.entries[i].entry_id == id {
            if i < at {
                assert(store.entries[i].entry_id != store.entries[at].entry_id);
            } else if at < i {
                assert(store.entries[at].entry_id != store.entries[i].entry_id);
            }
        }
    }
}

} // verus!
