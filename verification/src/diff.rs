//! The diff engine: set-difference between two snapshots of one source.
//!
//! Both snapshots are treated as sets: duplicates collapse and order is
//! irrelevant. What `owned_diff` promises is therefore stated over the sets
//! of item images; the order of the output vectors is left open, their
//! content is pinned exactly and holds no duplicates.

use vstd::prelude::*;

use crate::types::{item_set, item_views, Diff, Item, ItemModel};

verus! {

/// The items a new snapshot gained over an old one.
pub open spec fn diff_added(old: Set<ItemModel>, new: Set<ItemModel>) -> Set<ItemModel> {
    new.difference(old)
}

/// The items a new snapshot lost against an old one.
pub open spec fn diff_removed(old: Set<ItemModel>, new: Set<ItemModel>) -> Set<ItemModel> {
    old.difference(new)
}

/// Whether `v` holds an item whose image equals that of `x`.
pub(crate) fn contains_item(v: &Vec<Item>, x: &Item) -> (r: bool)
    ensures
        r == item_views(v@).contains(x@),
{
    let mut i: usize = 0;
    while i < v.len()
        invariant
            i <= v.len(),
            forall|k: int| 0 <= k < i ==> item_views(v@)[k] != x@,
        decreases v.len() - i,
    {
        if v[i] == *x {
            assert(item_views(v@)[i as int] == x@);
            return true;
        }
        assert(item_views(v@)[i as int] != x@);
        i = i + 1;
    }
    assert forall|k: int| 0 <= k < item_views(v@).len() implies item_views(v@)[k] != x@ by {}
    false
}

proof fn lemma_item_views_push(s: Seq<Item>, x: Item)
    ensures
        item_views(s.push(x)) == item_views(s).push(x@),
{
    assert(item_views(s.push(x)) =~= item_views(s).push(x@));
}

proof fn lemma_take_push(s: Seq<ItemModel>, i: int)
    requires
        0 <= i < s.len(),
    ensures
        s.take(i + 1) == s.take(i).push(s[i]),
        s.take(i + 1).to_set() == s.take(i).to_set().insert(s[i]),
{
    assert(s.take(i + 1) =~= s.take(i).push(s[i]));
    assert(s.take(i).push(s[i]) =~= s.take(i) + seq![s[i]]);
    Seq::<ItemModel>::lemma_to_set_insert_commutes(s.take(i), s[i]);
}

/// The items of `from`, first occurrences only, that do not occur in `excl`:
/// one half of a diff.
fn half_diff(from: &Vec<Item>, excl: &Vec<Item>) -> (out: Vec<Item>)
    ensures
        item_views(out@).no_duplicates(),
        item_set(out@) == item_set(from@).difference(item_set(excl@)),
{
    let ghost vs = item_views(from@);
    let ghost ex = item_set(excl@);
    let mut out: Vec<Item> = Vec::new();
    let mut i: usize = 0;
    assert(vs.take(0int) =~= Seq::<ItemModel>::empty());
    assert(item_set(out@) =~= vs.take(0int).to_set().difference(ex));
    while i < from.len()
        invariant
            i <= from.len(),
            vs == item_views(from@),
            ex == item_set(excl@),
            item_views(out@).no_duplicates(),
            item_set(out@) == vs.take(i as int).to_set().difference(ex),
        decreases from.len() - i,
    {
        let ghost prev = out@;
        let x = &from[i];
        assert(vs[i as int] == x@);
        proof {
            lemma_take_push(vs, i as int);
        }
        if !contains_item(excl, x) && !contains_item(&out, x) {
            let copy = Item { name: x.name.clone(), ty: x.ty };
            assert(copy@ == x@);
            out.push(copy);
            proof {
                lemma_item_views_push(prev, copy);
                assert(item_views(prev).push(copy@) =~= item_views(prev) + seq![copy@]);
                Seq::<ItemModel>::lemma_to_set_insert_commutes(item_views(prev), copy@);
                assert(item_set(out@) =~= vs.take(i + 1).to_set().difference(ex));
                assert forall|a: int, b: int|
                    0 <= a < b < item_views(out@).len() implies item_views(out@)[a]
                    != item_views(out@)[b] by {
                    if b == item_views(out@).len() - 1 {
                        assert(item_views(out@)[a] == item_views(prev)[a]);
                    }
                }
            }
        } else {
            proof {
                if ex.contains(x@) {
                    assert(item_set(out@) =~= vs.take(i + 1).to_set().difference(ex));
                } else {
                    assert(item_views(out@).contains(x@));
                    assert(item_set(out@).contains(x@));
                    assert(item_set(out@) =~= vs.take(i + 1).to_set().difference(ex));
                }
            }
        }
        i = i + 1;
    }
    assert(vs.take(from.len() as int) =~= vs);
    out
}

/// The diff between an old and a new snapshot of the same source:
/// `added` holds what only the new one has, `removed` what only the old one
/// has, each without duplicates and in no promised order.
pub fn owned_diff(old: &Vec<Item>, new: &Vec<Item>) -> (d: Diff<Item>)
    ensures
        item_set(d.added@) == diff_added(item_set(old@), item_set(new@)),
        item_set(d.removed@) == diff_removed(item_set(old@), item_set(new@)),
        item_views(d.added@).no_duplicates(),
        item_views(d.removed@).no_duplicates(),
{
    Diff { added: half_diff(new, old), removed: half_diff(old, new) }
}

/// Rebuilding law: from any old snapshot, dropping what the diff removed and
/// adding what it added yields exactly the new snapshot.
pub proof fn lemma_diff_rebuilds_new(old: Set<ItemModel>, new: Set<ItemModel>)
    ensures
        old.difference(diff_removed(old, new)).union(diff_added(old, new)) == new,
{
    assert(old.difference(diff_removed(old, new)).union(diff_added(old, new)) =~= new);
}

/// Two identical snapshots diff to nothing at all.
pub proof fn lemma_diff_identical(x: Set<ItemModel>)
    ensures
        diff_added(x, x) == Set::<ItemModel>::empty(),
        diff_removed(x, x) == Set::<ItemModel>::empty(),
{
    assert(diff_added(x, x) =~= Set::<ItemModel>::empty());
    assert(diff_removed(x, x) =~= Set::<ItemModel>::empty());
}

/// Against an empty old snapshot the whole new snapshot counts as added.
pub proof fn lemma_diff_from_empty(y: Set<ItemModel>)
    ensures
        diff_added(Set::<ItemModel>::empty(), y) == y,
        diff_removed(Set::<ItemModel>::empty(), y) == Set::<ItemModel>::empty(),
{
    assert(diff_added(Set::<ItemModel>::empty(), y) =~= y);
    assert(diff_removed(Set::<ItemModel>::empty(), y) =~= Set::<ItemModel>::empty());
}

/// Against an empty new snapshot the whole old snapshot counts as removed.
pub proof fn lemma_diff_to_empty(x: Set<ItemModel>)
    ensures
        diff_added(x, Set::<ItemModel>::empty()) == Set::<ItemModel>::empty(),
        diff_removed(x, Set::<ItemModel>::empty()) == x,
{
    assert(diff_added(x, Set::<ItemModel>::empty()) =~= Set::<ItemModel>::empty());
    assert(diff_removed(x, Set::<ItemModel>::empty()) =~= x);
}

/// A sequence whose set of values is empty is itself empty: a diff half
/// that is empty as a set really is an empty vector.
pub proof fn lemma_empty_set_means_empty_seq(s: Seq<ItemModel>)
    requires
        s.to_set() == Set::<ItemModel>::empty(),
    ensures
        s == Seq::<ItemModel>::empty(),
{
    if s.len() > 0 {
        assert(s.contains(s[0]));
        assert(s.to_set().contains(s[0]));
    }
    assert(s =~= Seq::<ItemModel>::empty());
}

} // verus!
