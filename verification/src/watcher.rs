//! The watcher agent's report/resync protocol.
//!
//! An agent remembers the snapshot it last reported and whether its next
//! report must be a full one. Each tick it diffs a freshly scanned snapshot
//! against the remembered one, remembers the new snapshot — unconditionally,
//! before any network step — and sends the diff. A successful send clears the
//! first-report flag; any failure (scan, network, or a refused response) arms
//! a full resync instead of attempting fine-grained recovery.

use vstd::prelude::*;

use crate::diff::{diff_added, diff_removed, lemma_diff_from_empty, owned_diff};
use crate::types::{item_set, item_views, FromWatcher, Item, ItemModel};

verus! {

/// One watcher agent's protocol state.
pub struct Watcher {
    id: String,
    last_files: Vec<Item>,
    is_first: bool,
}

/// Mathematical image of a watcher's state.
#[verifier::ext_equal]
pub ghost struct WatcherModel {
    pub id: Seq<char>,
    pub last_files: Seq<ItemModel>,
    pub is_first: bool,
}

impl View for Watcher {
    type V = WatcherModel;

    closed spec fn view(&self) -> WatcherModel {
        WatcherModel {
            id: self.id@,
            last_files: item_views(self.last_files@),
            is_first: self.is_first,
        }
    }
}

/// What noting a tick's outcome does to the agent: success clears the
/// first-report flag; any failure sets it and forgets the snapshot, so the
/// next report resynchronizes from nothing.
pub open spec fn spec_outcome(w: WatcherModel, success: bool) -> WatcherModel {
    if success {
        WatcherModel { is_first: false, ..w }
    } else {
        WatcherModel { is_first: true, last_files: Seq::<ItemModel>::empty(), ..w }
    }
}

impl Watcher {
    /// A fresh agent: nothing remembered, first report pending.
    pub fn new(id: String) -> (w: Watcher)
        ensures
            w@.id == id@,
            w@.last_files == Seq::<ItemModel>::empty(),
            w@.is_first,
    {
        let w = Watcher { id, last_files: Vec::new(), is_first: true };
        proof {
            assert(w@.last_files =~= Seq::<ItemModel>::empty());
        }
        w
    }

    /// One tick's computation: diff the scanned snapshot against the
    /// remembered one, remember the scan, and produce the report to send.
    /// The flag on the report tells the aggregator whether to replace
    /// (`first`) or to apply the diff.
    pub fn prepare_report(&mut self, current: Vec<Item>) -> (msg: FromWatcher)
        ensures
            final(self)@.id == old(self)@.id,
            final(self)@.is_first == old(self)@.is_first,
            final(self)@.last_files == item_views(current@),
            msg.id@ == old(self)@.id,
            msg.first == old(self)@.is_first,
            item_set(msg.diff.added@) == diff_added(
                old(self)@.last_files.to_set(),
                item_set(current@),
            ),
            item_set(msg.diff.removed@) == diff_removed(
                old(self)@.last_files.to_set(),
                item_set(current@),
            ),
            item_views(msg.diff.added@).no_duplicates(),
            item_views(msg.diff.removed@).no_duplicates(),
    {
        let d = owned_diff(&self.last_files, &current);
        let first = self.is_first;
        let id = self.id.clone();
        self.last_files = current;
        FromWatcher { id, diff: d, first }
    }

    /// Note how the tick ended: `true` for a delivered report, `false` for
    /// any failure along the way.
    pub fn record_outcome(&mut self, success: bool)
        ensures
            final(self)@ == spec_outcome(old(self)@, success),
    {
        if success {
            self.is_first = false;
        } else {
            self.is_first = true;
            self.last_files = Vec::new();
        }
        proof {
            assert(self@ =~= spec_outcome(old(self)@, success));
        }
    }
}

/// Resync law: after any failed tick, the next report is a full one — its
/// first-report flag is set, and against the forgotten snapshot the whole
/// current listing counts as added, nothing as removed.
pub proof fn lemma_failure_forces_resync(w: WatcherModel, current: Set<ItemModel>)
    ensures
        spec_outcome(w, false).is_first,
        diff_added(spec_outcome(w, false).last_files.to_set(), current) == current,
        diff_removed(spec_outcome(w, false).last_files.to_set(), current) == Set::<
            ItemModel,
        >::empty(),
{
    assert(Seq::<ItemModel>::empty().to_set() =~= Set::<ItemModel>::empty());
    lemma_diff_from_empty(current);
}

} // verus!
