//! The value types that travel between a watcher agent and the aggregator.

use vstd::prelude::*;

verus! {

/// Whether a directory entry is a plain file or a directory.
#[derive(Debug, Clone, Copy, PartialEq, Eq, Structural)]
pub enum Type {
    File,
    Folder,
}

/// One directory entry as a watcher observes it: a name and its kind.
#[derive(Debug, Clone)]
pub struct Item {
    pub name: String,
    pub ty: Type,
}

/// Mathematical image of an `Item`: the name as a sequence of characters,
/// beside the kind.
#[verifier::ext_equal]
pub ghost struct ItemModel {
    pub name: Seq<char>,
    pub ty: Type,
}

impl View for Item {
    type V = ItemModel;

    open spec fn view(&self) -> ItemModel {
        ItemModel { name: self.name@, ty: self.ty }
    }
}

impl PartialEq for Item {
    fn eq(&self, other: &Item) -> (r: bool) {
        self.name == other.name && self.ty == other.ty
    }
}

impl vstd::std_specs::cmp::PartialEqSpecImpl for Item {
    open spec fn obeys_eq_spec() -> bool {
        true
    }

    open spec fn eq_spec(&self, other: &Item) -> bool {
        self@ == other@
    }
}

/// The images of a sequence of items, in order.
pub open spec fn item_views(s: Seq<Item>) -> Seq<ItemModel> {
    s.map_values(|it: Item| it@)
}

/// The set of images of a sequence of items; duplicates and order collapse.
pub open spec fn item_set(s: Seq<Item>) -> Set<ItemModel> {
    item_views(s).to_set()
}

/// The delta between two snapshots of the same source.
#[derive(Debug, Clone)]
pub struct Diff<T> {
    pub added: Vec<T>,
    pub removed: Vec<T>,
}

/// The payload a watcher agent sends on every tick. `first` means: discard
/// any prior state for this source, `diff.added` is the complete listing.
#[derive(Debug, Clone)]
pub struct FromWatcher {
    pub id: String,
    pub diff: Diff<Item>,
    pub first: bool,
}

} // verus!
