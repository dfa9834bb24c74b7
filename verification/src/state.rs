//! The aggregator store: one record per source, keyed by source id.
//!
//! The store accepts full replacements (`set`) and incremental diffs
//! (`update`), serves the merged view as rows tagged with their source and a
//! staleness flag (`list`), and drops sources that have been quiet beyond a
//! threshold (`remove_older_than`). Every operation takes the current time in
//! milliseconds as a plain value, so what each one does is a function of its
//! arguments alone.
//!
//! The mathematical image of the store is the sequence of its source records
//! in insertion order; ids are unique, which `wf` states, `new` establishes
//! and every operation preserves.

use vstd::prelude::*;

use crate::timings::STALE_MILLIS;
use crate::types::{item_views, Diff, Item, ItemModel, Type};
use crate::diff::contains_item;

verus! {

/// What the store remembers of one source: the time of the last accepted
/// report and the items it currently claims.
pub struct Info {
    last_updated: u64,
    files: Vec<Item>,
}

/// Mathematical image of one source record.
#[verifier::ext_equal]
pub ghost struct SourceModel {
    pub id: Seq<char>,
    pub last_updated: u64,
    pub files: Seq<ItemModel>,
}

/// The aggregator store.
pub struct State {
    state: Vec<(String, Info)>,
}

impl View for State {
    type V = Seq<SourceModel>;

    closed spec fn view(&self) -> Seq<SourceModel> {
        self.state@.map_values(
            |e: (String, Info)|
                SourceModel {
                    id: e.0@,
                    last_updated: e.1.last_updated,
                    files: item_views(e.1.files@),
                },
        )
    }
}

/// Ids are pairwise distinct.
pub open spec fn wf_ids(m: Seq<SourceModel>) -> bool {
    forall|i: int, j: int| 0 <= i < j < m.len() ==> m[i].id != m[j].id
}

/// Whether some record carries the given id.
pub open spec fn has_id(m: Seq<SourceModel>, id: Seq<char>) -> bool {
    exists|i: int| 0 <= i < m.len() && m[i].id == id
}

/// The index of the first record carrying the given id.
pub open spec fn idx_of(m: Seq<SourceModel>, id: Seq<char>) -> int
    decreases m.len(),
{
    if m.len() == 0 {
        0
    } else if m[0].id == id {
        0
    } else {
        1 + idx_of(m.drop_first(), id)
    }
}

pub proof fn lemma_idx_of(m: Seq<SourceModel>, id: Seq<char>)
    requires
        has_id(m, id),
    ensures
        0 <= idx_of(m, id) < m.len(),
        m[idx_of(m, id)].id == id,
        forall|k: int| 0 <= k < idx_of(m, id) ==> m[k].id != id,
    decreases m.len(),
{
    if m.len() == 0 {
    } else if m[0].id == id {
    } else {
        let i = choose|i: int| 0 <= i < m.len() && m[i].id == id;
        assert(m.drop_first()[i - 1] == m[i]);
        lemma_idx_of(m.drop_first(), id);
        assert(m[idx_of(m, id)] == m.drop_first()[idx_of(m, id) - 1]);
        assert forall|k: int| 0 <= k < idx_of(m, id) implies m[k].id != id by {
            if k > 0 {
                assert(m.drop_first()[k - 1] == m[k]);
            }
        }
    }
}

pub proof fn lemma_idx_of_first(m: Seq<SourceModel>, id: Seq<char>, i: int)
    requires
        0 <= i < m.len(),
        m[i].id == id,
        forall|k: int| 0 <= k < i ==> m[k].id != id,
    ensures
        idx_of(m, id) == i,
        has_id(m, id),
    decreases m.len(),
{
    if i == 0 {
    } else {
        assert(m[0].id != id);
        assert(m.drop_first()[i - 1] == m[i]);
        assert forall|k: int| 0 <= k < i - 1 implies m.drop_first()[k].id != id by {
            assert(m.drop_first()[k] == m[k + 1]);
        }
        lemma_idx_of_first(m.drop_first(), id, i - 1);
    }
}

/// A fresh record for a source, accepted at `now`.
pub open spec fn record(id: Seq<char>, files: Seq<ItemModel>, now: u64) -> SourceModel {
    SourceModel { id, last_updated: now, files }
}

/// What `set` does: replace the record under `id` wholesale, or append a new
/// one if the id is absent.
pub open spec fn spec_set(
    m: Seq<SourceModel>,
    id: Seq<char>,
    files: Seq<ItemModel>,
    now: u64,
) -> Seq<SourceModel> {
    if has_id(m, id) {
        m.update(idx_of(m, id), record(id, files, now))
    } else {
        m.push(record(id, files, now))
    }
}

/// The items currently recorded under `id`; empty if the id is absent.
pub open spec fn files_of(m: Seq<SourceModel>, id: Seq<char>) -> Seq<ItemModel> {
    if has_id(m, id) {
        m[idx_of(m, id)].files
    } else {
        Seq::<ItemModel>::empty()
    }
}

/// Whether an item survives a diff: it is named neither as removed nor as
/// about to be added (the latter is the de-duplication guard).
pub open spec fn keeps(added: Seq<ItemModel>, removed: Seq<ItemModel>) -> spec_fn(
    ItemModel,
) -> bool {
    |m: ItemModel| !removed.contains(m) && !added.contains(m)
}

/// The items of `files` that a diff leaves in place, in their old order.
pub open spec fn kept_files(
    files: Seq<ItemModel>,
    added: Seq<ItemModel>,
    removed: Seq<ItemModel>,
) -> Seq<ItemModel> {
    files.filter(keeps(added, removed))
}

/// What a diff makes of a source's items: drop everything removed or about to
/// be added, then append the added items. Removals of absent items fall away
/// silently, and an item named on both sides ends up present: added wins.
pub open spec fn apply_diff(
    files: Seq<ItemModel>,
    added: Seq<ItemModel>,
    removed: Seq<ItemModel>,
) -> Seq<ItemModel> {
    kept_files(files, added, removed) + added
}

/// What `update` does: rewrite the items under `id` through `apply_diff`,
/// starting from nothing if the id is absent, and stamp the record with
/// `now` even if the diff is empty — receipt itself is a liveness signal.
pub open spec fn spec_update(
    m: Seq<SourceModel>,
    id: Seq<char>,
    added: Seq<ItemModel>,
    removed: Seq<ItemModel>,
    now: u64,
) -> Seq<SourceModel> {
    spec_set(m, id, apply_diff(files_of(m, id), added, removed), now)
}

/// How long ago a record was stamped, saturating at zero if the clock
/// appears to have moved backwards.
pub open spec fn age_of(now: u64, last: u64) -> u64 {
    if now >= last {
        (now - last) as u64
    } else {
        0
    }
}

/// A record older than the stale threshold is shown as stale.
pub open spec fn is_stale(now: u64, last: u64) -> bool {
    age_of(now, last) > STALE_MILLIS
}

/// Whether a record is young enough to survive expiry at `threshold`.
pub open spec fn alive(now: u64, threshold: u64) -> spec_fn(SourceModel) -> bool {
    |s: SourceModel| age_of(now, s.last_updated) <= threshold
}

/// What `remove_older_than` does: keep exactly the records whose age does not
/// exceed the threshold, in order.
pub open spec fn spec_expire(
    m: Seq<SourceModel>,
    now: u64,
    threshold: u64,
) -> Seq<SourceModel> {
    m.filter(alive(now, threshold))
}

/// One row of the merged view, as served to clients.
#[derive(Debug, Clone)]
pub struct ItemList {
    pub name: String,
    pub ty: Type,
    pub from: String,
    pub stale: bool,
}

/// Mathematical image of one row.
#[verifier::ext_equal]
pub ghost struct RowModel {
    pub name: Seq<char>,
    pub ty: Type,
    pub from: Seq<char>,
    pub stale: bool,
}

impl View for ItemList {
    type V = RowModel;

    open spec fn view(&self) -> RowModel {
        RowModel { name: self.name@, ty: self.ty, from: self.from@, stale: self.stale }
    }
}

/// The images of a sequence of rows, in order.
pub open spec fn row_views(s: Seq<ItemList>) -> Seq<RowModel> {
    s.map_values(|r: ItemList| r@)
}

/// The row an item of a source contributes to the view.
pub open spec fn row_of(m: ItemModel, from: Seq<char>, stale: bool) -> RowModel {
    RowModel { name: m.name, ty: m.ty, from, stale }
}

/// The rows one source contributes: its items in order, each tagged with the
/// source id and the source's staleness at `now`.
pub open spec fn source_rows(s: SourceModel, now: u64) -> Seq<RowModel> {
    s.files.map_values(|m: ItemModel| row_of(m, s.id, is_stale(now, s.last_updated)))
}

/// What `list` yields: the rows of every source, sources in store order.
pub open spec fn list_rows(m: Seq<SourceModel>, now: u64) -> Seq<RowModel>
    decreases m.len(),
{
    if m.len() == 0 {
        Seq::<RowModel>::empty()
    } else {
        source_rows(m[0], now) + list_rows(m.drop_first(), now)
    }
}

pub proof fn lemma_list_rows_push(m: Seq<SourceModel>, x: SourceModel, now: u64)
    ensures
        list_rows(m.push(x), now) == list_rows(m, now) + source_rows(x, now),
    decreases m.len(),
{
    if m.len() == 0 {
        assert(m.push(x)[0] == x);
        assert(m.push(x).drop_first() =~= Seq::<SourceModel>::empty());
        assert(list_rows(m.push(x), now) == source_rows(x, now) + list_rows(
            Seq::<SourceModel>::empty(),
            now,
        ));
        assert(source_rows(x, now) + Seq::<RowModel>::empty() =~= list_rows(m, now) + source_rows(
            x,
            now,
        ));
    } else {
        assert(m.push(x)[0] == m[0]);
        assert(m.push(x).drop_first() =~= m.drop_first().push(x));
        lemma_list_rows_push(m.drop_first(), x, now);
        assert(list_rows(m.push(x), now) == source_rows(m[0], now) + (list_rows(
            m.drop_first(),
            now,
        ) + source_rows(x, now)));
        assert(source_rows(m[0], now) + (list_rows(m.drop_first(), now) + source_rows(x, now))
            =~= (source_rows(m[0], now) + list_rows(m.drop_first(), now)) + source_rows(x, now));
    }
}

impl State {
    /// Id uniqueness: the store's internal invariant.
    pub open spec fn wf(&self) -> bool {
        wf_ids(self@)
    }

    /// A fresh, empty store.
    pub fn new() -> (s: State)
        ensures
            s@ == Seq::<SourceModel>::empty(),
            s.wf(),
    {
        let s = State { state: Vec::new() };
        proof {
            assert(s@ =~= Seq::<SourceModel>::empty());
        }
        s
    }

    /// Whether the store's id-uniqueness invariant holds; lets unverified
    /// callers check it before handing the store to the operations below.
    pub fn well_formed(&self) -> (b: bool)
        ensures
            b == self.wf(),
    {
        let n = self.state.len();
        let mut i: usize = 0;
        while i < n
            invariant
                n == self.state.len(),
                i <= n,
                forall|a: int, b: int| 0 <= a < b < n && a < i ==> self@[a].id != self@[b].id,
            decreases n - i,
        {
            let mut j: usize = i + 1;
            while j < n
                invariant
                    n == self.state.len(),
                    i < j <= n,
                    forall|b: int| i < b < j ==> self@[i as int].id != self@[b].id,
                decreases n - j,
            {
                if self.state[i].0 == self.state[j].0 {
                    assert(self@[i as int].id == self@[j as int].id);
                    return false;
                }
                j = j + 1;
            }
            i = i + 1;
        }
        true
    }

    /// The index of the record under `id`, if there is one.
    fn find(&self, id: &String) -> (r: Option<usize>)
        ensures
            match r {
                Some(i) => {
                    &&& i < self@.len()
                    &&& self@[i as int].id == id@
                    &&& has_id(self@, id@)
                    &&& idx_of(self@, id@) == i
                },
                None => !has_id(self@, id@),
            },
    {
        let mut i: usize = 0;
        while i < self.state.len()
            invariant
                i <= self.state.len(),
                forall|k: int| 0 <= k < i ==> self@[k].id != id@,
            decreases self.state.len() - i,
        {
            if self.state[i].0 == *id {
                assert(self@[i as int].id == id@);
                proof {
                    lemma_idx_of_first(self@, id@, i as int);
                }
                return Some(i);
            }
            assert(self@[i as int].id != id@);
            i = i + 1;
        }
        None
    }

    /// Replace whatever is recorded under `id` with `items`, stamped `now`:
    /// the handling of a `first = true` report.
    pub fn set(&mut self, id: String, items: Vec<Item>, now_ms: u64)
        requires
            old(self).wf(),
        ensures
            final(self).wf(),
            final(self)@ == spec_set(old(self)@, id@, item_views(items@), now_ms),
    {
        let ghost m0 = self@;
        let found = self.find(&id);
        let info = Info { last_updated: now_ms, files: items };
        match found {
            Some(i) => {
                self.state.remove(i);
                self.state.insert(i, (id, info));
                proof {
                    assert(self.state@ =~= old(self).state@.update(
                        i as int,
                        self.state@[i as int],
                    ));
                    assert(self@ =~= m0.update(i as int, record(id@, item_views(items@), now_ms)));
                }
            },
            None => {
                self.state.push((id, info));
                proof {
                    assert(self@ =~= m0.push(record(id@, item_views(items@), now_ms)));
                    assert forall|a: int, b: int|
                        0 <= a < b < self@.len() implies self@[a].id != self@[b].id by {
                        if b == self@.len() - 1 {
                            assert(self@[a] == m0[a]);
                        }
                    }
                }
            },
        }
    }

    /// Apply a diff to the record under `id`, starting from nothing if the id
    /// is absent, and stamp the record with `now`: the handling of a
    /// `first = false` report.
    pub fn update(&mut self, id: String, diff: Diff<Item>, now_ms: u64)
        requires
            old(self).wf(),
        ensures
            final(self).wf(),
            final(self)@ == spec_update(
                old(self)@,
                id@,
                item_views(diff.added@),
                item_views(diff.removed@),
                now_ms,
            ),
    {
        let ghost m0 = self@;
        let ghost av = item_views(diff.added@);
        let ghost rv = item_views(diff.removed@);
        let Diff { mut added, removed } = diff;
        let found = self.find(&id);
        match found {
            Some(i) => {
                let (_, info) = self.state.remove(i);
                let mut files = kept_items(&info.files, &added, &removed);
                files.append(&mut added);
                assert(item_views(files@) =~= apply_diff(files_of(m0, id@), av, rv)) by {
                    assert(item_views(info.files@) == m0[i as int].files);
                    assert(item_views(files@) =~= kept_files(files_of(m0, id@), av, rv) + av);
                }
                self.state.insert(i, (id, Info { last_updated: now_ms, files }));
                proof {
                    assert(self.state@ =~= old(self).state@.update(
                        i as int,
                        self.state@[i as int],
                    ));
                    assert(self@ =~= m0.update(
                        i as int,
                        record(id@, apply_diff(files_of(m0, id@), av, rv), now_ms),
                    ));
                }
            },
            None => {
                let mut files = kept_items(&Vec::new(), &added, &removed);
                files.append(&mut added);
                assert(item_views(files@) =~= apply_diff(files_of(m0, id@), av, rv)) by {
                    assert(kept_files(Seq::<ItemModel>::empty(), av, rv)
                        == Seq::<ItemModel>::empty()) by {
                        reveal(Seq::filter);
                    }
                    assert(item_views(Seq::<Item>::empty()) =~= Seq::<ItemModel>::empty());
                }
                self.state.push((id, Info { last_updated: now_ms, files }));
                proof {
                    assert(self@ =~= m0.push(
                        record(id@, apply_diff(files_of(m0, id@), av, rv), now_ms),
                    ));
                    assert forall|a: int, b: int|
                        0 <= a < b < self@.len() implies self@[a].id != self@[b].id by {
                        if b == self@.len() - 1 {
                            assert(self@[a] == m0[a]);
                        }
                    }
                }
            },
        }
    }

    /// The merged view at `now`: for every source, for every item, one row
    /// tagged with the source id and its staleness.
    pub fn list(&self, now_ms: u64) -> (out: Vec<ItemList>)
        ensures
            row_views(out@) == list_rows(self@, now_ms),
    {
        let mut out: Vec<ItemList> = Vec::new();
        let n = self.state.len();
        let mut i: usize = 0;
        proof {
            assert(self@.take(0int) =~= Seq::<SourceModel>::empty());
            assert(row_views(out@) =~= list_rows(self@.take(0int), now_ms));
        }
        while i < n
            invariant
                n == self.state.len(),
                i <= n,
                row_views(out@) == list_rows(self@.take(i as int), now_ms),
            decreases n - i,
        {
            let last = self.state[i].1.last_updated;
            let age: u64 = if now_ms >= last {
                now_ms - last
            } else {
                0
            };
            let st = age > STALE_MILLIS;
            assert(st == is_stale(now_ms, last));
            let ghost src = self@[i as int];
            let ghost rows0 = row_views(out@);
            let m = self.state[i].1.files.len();
            let mut j: usize = 0;
            proof {
                assert(rows0 + source_rows(src, now_ms).take(0int) =~= rows0);
            }
            while j < m
                invariant
                    n == self.state.len(),
                    i < n,
                    m == self.state[i as int].1.files.len(),
                    j <= m,
                    src == self@[i as int],
                    st == is_stale(now_ms, self@[i as int].last_updated),
                    row_views(out@) == rows0 + source_rows(src, now_ms).take(j as int),
                decreases m - j,
            {
                let file = &self.state[i].1.files[j];
                let row = ItemList {
                    name: file.name.clone(),
                    ty: file.ty,
                    from: self.state[i].0.clone(),
                    stale: st,
                };
                proof {
                    assert(src.files[j as int] == file@);
                    assert(row@ == source_rows(src, now_ms)[j as int]);
                }
                let ghost prev_out = out@;
                out.push(row);
                proof {
                    let sr = source_rows(src, now_ms);
                    assert(sr.take(j as int + 1) =~= sr.take(j as int).push(sr[j as int]));
                    assert(row_views(out@) =~= row_views(prev_out).push(row@));
                    assert((rows0 + sr.take(j as int)).push(row@) =~= rows0 + sr.take(
                        j as int + 1,
                    ));
                }
                j = j + 1;
            }
            proof {
                assert(source_rows(src, now_ms).take(m as int) =~= source_rows(src, now_ms));
                assert(self@.take(i as int + 1) =~= self@.take(i as int).push(src));
                lemma_list_rows_push(self@.take(i as int), src, now_ms);
            }
            i = i + 1;
        }
        proof {
            assert(self@.take(n as int) =~= self@);
        }
        out
    }

    /// Drop every source whose age exceeds the threshold.
    pub fn remove_older_than(&mut self, duration_ms: u64, now_ms: u64)
        requires
            old(self).wf(),
        ensures
            final(self).wf(),
            final(self)@ == spec_expire(old(self)@, now_ms, duration_ms),
    {
        let ghost m0 = self@;
        let mut i: usize = 0;
        let ghost mut p: int = 0;
        proof {
            assert(m0.take(0int) =~= Seq::<SourceModel>::empty());
            assert(spec_expire(m0.take(0int), now_ms, duration_ms)
                =~= Seq::<SourceModel>::empty()) by {
                reveal(Seq::filter);
            }
            assert(m0.skip(0int) =~= m0);
            assert(self@ =~= spec_expire(m0.take(0int), now_ms, duration_ms) + m0.skip(0int));
        }
        while i < self.state.len()
            invariant
                0 <= p <= m0.len(),
                i == spec_expire(m0.take(p), now_ms, duration_ms).len(),
                self@ == spec_expire(m0.take(p), now_ms, duration_ms) + m0.skip(p),
            decreases m0.len() - p,
        {
            let ghost cur = m0[p];
            assert(self@[i as int] == cur);
            let last = self.state[i].1.last_updated;
            assert(cur.last_updated == last);
            let age: u64 = if now_ms >= last {
                now_ms - last
            } else {
                0
            };
            proof {
                assert(m0.take(p + 1) =~= m0.take(p).push(cur));
                lemma_alive_push(m0.take(p), cur, now_ms, duration_ms);
            }
            if age > duration_ms {
                let ghost pre = self@;
                self.state.remove(i);
                proof {
                    assert(self@ =~= pre.remove(i as int));
                    assert(pre.remove(i as int) =~= spec_expire(m0.take(p), now_ms, duration_ms)
                        + m0.skip(p + 1)) by {
                        assert(m0.skip(p + 1) =~= m0.skip(p).drop_first());
                    }
                    assert(self@ =~= spec_expire(m0.take(p + 1), now_ms, duration_ms) + m0.skip(
                        p + 1,
                    ));
                }
            } else {
                proof {
                    assert(self@ =~= spec_expire(m0.take(p + 1), now_ms, duration_ms) + m0.skip(
                        p + 1,
                    ));
                }
                i = i + 1;
            }
            proof {
                p = p + 1;
            }
        }
        proof {
            assert(m0.skip(p) =~= Seq::<SourceModel>::empty());
            assert(p == m0.len());
            assert(m0.take(p) =~= m0);
            assert(final(self)@ =~= spec_expire(m0, now_ms, duration_ms));
            lemma_expire_wf(m0, now_ms, duration_ms);
        }
    }
}

proof fn lemma_alive_push(m: Seq<SourceModel>, x: SourceModel, now: u64, threshold: u64)
    ensures
        spec_expire(m.push(x), now, threshold) == (if age_of(now, x.last_updated) <= threshold {
            spec_expire(m, now, threshold).push(x)
        } else {
            spec_expire(m, now, threshold)
        }),
{
    reveal(Seq::filter);
    assert(m.push(x).drop_last() =~= m);
    assert(m.push(x).last() == x);
}

/// Expiry keeps ids pairwise distinct, and invents no source.
pub proof fn lemma_expire_wf(m: Seq<SourceModel>, now: u64, threshold: u64)
    requires
        wf_ids(m),
    ensures
        wf_ids(spec_expire(m, now, threshold)),
        forall|k: int|
            0 <= k < spec_expire(m, now, threshold).len() ==> m.contains(
                #[trigger] spec_expire(m, now, threshold)[k],
            ),
    decreases m.len(),
{
    reveal(Seq::filter);
    if m.len() == 0 {
    } else {
        let d = m.drop_last();
        assert(wf_ids(d)) by {
            assert forall|a: int, b: int| 0 <= a < b < d.len() implies d[a].id != d[b].id by {
                assert(d[a] == m[a] && d[b] == m[b]);
            }
        }
        lemma_expire_wf(d, now, threshold);
        let fd = spec_expire(d, now, threshold);
        let f = spec_expire(m, now, threshold);
        assert forall|k: int| 0 <= k < fd.len() implies m.contains(#[trigger] fd[k]) by {
            assert(d.contains(fd[k]));
            let j = choose|j: int| 0 <= j < d.len() && d[j] == fd[k];
            assert(m[j] == d[j]);
        }
        if age_of(now, m.last().last_updated) <= threshold {
            assert(f == fd.push(m.last()));
            assert forall|a: int, b: int| 0 <= a < b < f.len() implies f[a].id != f[b].id by {
                if b == f.len() - 1 {
                    assert(f[a] == fd[a]);
                    assert(d.contains(fd[a]));
                    let j = choose|j: int| 0 <= j < d.len() && d[j] == fd[a];
                    assert(m[j].id == fd[a].id);
                    assert(m[j].id != m[m.len() - 1].id);
                } else {
                    assert(f[a] == fd[a] && f[b] == fd[b]);
                }
            }
            assert forall|k: int| 0 <= k < f.len() implies m.contains(#[trigger] f[k]) by {
                if k == f.len() - 1 {
                    assert(f[k] == m[m.len() - 1]);
                    assert(m.contains(m[m.len() - 1]));
                } else {
                    assert(f[k] == fd[k]);
                }
            }
        } else {
            assert(f == fd);
        }
    }
}

/// The items of `files` that the diff `added` / `removed` leaves in place.
fn kept_items(files: &Vec<Item>, added: &Vec<Item>, removed: &Vec<Item>) -> (out: Vec<Item>)
    ensures
        item_views(out@) == kept_files(
            item_views(files@),
            item_views(added@),
            item_views(removed@),
        ),
{
    let ghost fs = item_views(files@);
    let ghost av = item_views(added@);
    let ghost rv = item_views(removed@);
    let mut out: Vec<Item> = Vec::new();
    let mut i: usize = 0;
    proof {
        assert(fs.take(0int) =~= Seq::<ItemModel>::empty());
        assert(kept_files(fs.take(0int), av, rv) == Seq::<ItemModel>::empty()) by {
            reveal(Seq::filter);
        }
        assert(item_views(out@) =~= Seq::<ItemModel>::empty());
    }
    while i < files.len()
        invariant
            i <= files.len(),
            fs == item_views(files@),
            av == item_views(added@),
            rv == item_views(removed@),
            item_views(out@) == kept_files(fs.take(i as int), av, rv),
        decreases files.len() - i,
    {
        let ghost prev = out@;
        let x = &files[i];
        assert(fs[i as int] == x@);
        proof {
            assert(fs.take(i as int + 1) =~= fs.take(i as int).push(fs[i as int]));
            lemma_kept_push(fs.take(i as int), fs[i as int], av, rv);
        }
        if !contains_item(added, x) && !contains_item(removed, x) {
            let copy = Item { name: x.name.clone(), ty: x.ty };
            assert(copy@ == x@);
            out.push(copy);
            proof {
                assert(item_views(out@) =~= item_views(prev).push(x@));
            }
        }
        i = i + 1;
    }
    proof {
        assert(fs.take(files.len() as int) =~= fs);
    }
    out
}

proof fn lemma_kept_push(
    files: Seq<ItemModel>,
    x: ItemModel,
    added: Seq<ItemModel>,
    removed: Seq<ItemModel>,
)
    ensures
        kept_files(files.push(x), added, removed) == (if !removed.contains(x) && !added.contains(x) {
            kept_files(files, added, removed).push(x)
        } else {
            kept_files(files, added, removed)
        }),
{
    reveal(Seq::filter);
    assert(files.push(x).drop_last() =~= files);
    assert(files.push(x).last() == x);
}

/// The predicate picking the rows a given source contributed.
pub open spec fn from_source(id: Seq<char>) -> spec_fn(RowModel) -> bool {
    |r: RowModel| r.from == id
}

/// The rows of a view that carry the given source id, in view order.
pub open spec fn rows_from(rows: Seq<RowModel>, id: Seq<char>) -> Seq<RowModel> {
    rows.filter(from_source(id))
}

proof fn lemma_filter_all_true(s: Seq<RowModel>, pred: spec_fn(RowModel) -> bool)
    requires
        forall|i: int| 0 <= i < s.len() ==> pred(#[trigger] s[i]),
    ensures
        s.filter(pred) == s,
    decreases s.len(),
{
    reveal(Seq::filter);
    if s.len() > 0 {
        assert forall|i: int| 0 <= i < s.drop_last().len() implies pred(
            #[trigger] s.drop_last()[i],
        ) by {
            assert(s.drop_last()[i] == s[i]);
        }
        lemma_filter_all_true(s.drop_last(), pred);
        assert(s.drop_last().push(s.last()) =~= s);
    }
}

proof fn lemma_filter_all_false(s: Seq<RowModel>, pred: spec_fn(RowModel) -> bool)
    requires
        forall|i: int| 0 <= i < s.len() ==> !pred(#[trigger] s[i]),
    ensures
        s.filter(pred) == Seq::<RowModel>::empty(),
    decreases s.len(),
{
    reveal(Seq::filter);
    if s.len() > 0 {
        assert forall|i: int| 0 <= i < s.drop_last().len() implies !pred(
            #[trigger] s.drop_last()[i],
        ) by {
            assert(s.drop_last()[i] == s[i]);
        }
        lemma_filter_all_false(s.drop_last(), pred);
    }
}

/// `spec_set` preserves id uniqueness and leaves the fresh record under `id`.
pub proof fn lemma_spec_set_wf(m: Seq<SourceModel>, id: Seq<char>, files: Seq<ItemModel>, now: u64)
    requires
        wf_ids(m),
    ensures
        ({
            let m1 = spec_set(m, id, files, now);
            &&& wf_ids(m1)
            &&& has_id(m1, id)
            &&& m1[idx_of(m1, id)] == record(id, files, now)
            &&& files_of(m1, id) == files
        }),
{
    let m1 = spec_set(m, id, files, now);
    if has_id(m, id) {
        lemma_idx_of(m, id);
        let i = idx_of(m, id);
        assert forall|a: int, b: int| 0 <= a < b < m1.len() implies m1[a].id != m1[b].id by {
            assert(m1[a].id == m[a].id);
            assert(m1[b].id == m[b].id);
        }
        lemma_idx_of_first(m1, id, i);
    } else {
        assert forall|a: int, b: int| 0 <= a < b < m1.len() implies m1[a].id != m1[b].id by {
            assert(m1[a] == m[a]);
            if b < m1.len() - 1 {
                assert(m1[b] == m[b]);
            }
        }
        assert forall|k: int| 0 <= k < m.len() implies m1[k].id != id by {
            assert(m1[k] == m[k]);
        }
        lemma_idx_of_first(m1, id, m.len() as int);
    }
}

/// What the view shows for one source: its rows stand together, and they are
/// exactly the rows of its record — nothing if the id is absent.
#[verifier::rlimit(60)]
pub proof fn lemma_rows_from_list(m: Seq<SourceModel>, now: u64, id: Seq<char>)
    requires
        wf_ids(m),
    ensures
        rows_from(list_rows(m, now), id) == (if has_id(m, id) {
            source_rows(m[idx_of(m, id)], now)
        } else {
            Seq::<RowModel>::empty()
        }),
    decreases m.len(),
{
    if m.len() == 0 {
        reveal(Seq::filter);
    } else {
        let rest = m.drop_first();
        assert(wf_ids(rest)) by {
            assert forall|a: int, b: int|
                0 <= a < b < rest.len() implies rest[a].id != rest[b].id by {
                assert(rest[a] == m[a + 1] && rest[b] == m[b + 1]);
            }
        }
        lemma_rows_from_list(rest, now, id);
        let sr = source_rows(m[0], now);
        Seq::<RowModel>::filter_distributes_over_add(sr, list_rows(rest, now), from_source(id));
        if m[0].id == id {
            assert forall|i: int| 0 <= i < sr.len() implies from_source(id)(#[trigger] sr[i]) by {
                assert(sr[i] == row_of(m[0].files[i], m[0].id, is_stale(now, m[0].last_updated)));
            }
            lemma_filter_all_true(sr, from_source(id));
            assert(!has_id(rest, id)) by {
                if has_id(rest, id) {
                    let j = choose|j: int| 0 <= j < rest.len() && rest[j].id == id;
                    assert(m[j + 1] == rest[j]);
                }
            }
            assert(idx_of(m, id) == 0);
            assert(rows_from(list_rows(m, now), id) =~= sr);
        } else {
            assert forall|i: int| 0 <= i < sr.len() implies !from_source(id)(#[trigger] sr[i]) by {
                assert(sr[i] == row_of(m[0].files[i], m[0].id, is_stale(now, m[0].last_updated)));
            }
            lemma_filter_all_false(sr, from_source(id));
            if has_id(m, id) {
                lemma_idx_of(m, id);
                assert(rest[idx_of(m, id) - 1] == m[idx_of(m, id)]);
                assert(has_id(rest, id));
                assert(rows_from(list_rows(m, now), id) =~= source_rows(m[idx_of(m, id)], now));
            } else {
                assert(!has_id(rest, id)) by {
                    if has_id(rest, id) {
                        let j = choose|j: int| 0 <= j < rest.len() && rest[j].id == id;
                        assert(m[j + 1] == rest[j]);
                    }
                }
                assert(rows_from(list_rows(m, now), id) =~= Seq::<RowModel>::empty());
            }
        }
    }
}

/// Replace-then-list law: right after replacing the record under `id` with
/// `files` at time `now`, the view's rows for `id` are exactly `files`, in
/// order, tagged with `id` and not stale.
pub proof fn lemma_replace_then_list(
    m: Seq<SourceModel>,
    id: Seq<char>,
    files: Seq<ItemModel>,
    now: u64,
)
    requires
        wf_ids(m),
    ensures
        ({
            let m1 = spec_set(m, id, files, now);
            rows_from(list_rows(m1, now), id) == files.map_values(
                |f: ItemModel| row_of(f, id, false),
            )
        }),
{
    lemma_spec_set_wf(m, id, files, now);
    let m1 = spec_set(m, id, files, now);
    lemma_rows_from_list(m1, now, id);
    assert(source_rows(record(id, files, now), now) =~= files.map_values(
        |f: ItemModel| row_of(f, id, false),
    ));
}

proof fn lemma_kept_subset(files: Seq<ItemModel>, added: Seq<ItemModel>, removed: Seq<ItemModel>)
    ensures
        forall|k: int|
            0 <= k < kept_files(files, added, removed).len() ==> files.contains(
                #[trigger] kept_files(files, added, removed)[k],
            ),
    decreases files.len(),
{
    reveal(Seq::filter);
    if files.len() > 0 {
        let dl = files.drop_last();
        lemma_kept_subset(dl, added, removed);
        let kf = kept_files(files, added, removed);
        let kd = kept_files(dl, added, removed);
        assert forall|k: int| 0 <= k < kf.len() implies files.contains(#[trigger] kf[k]) by {
            if k < kd.len() {
                assert(kf[k] == kd[k]);
                assert(dl.contains(kd[k]));
                let j = choose|j: int| 0 <= j < dl.len() && dl[j] == kd[k];
                assert(files[j] == dl[j]);
            } else {
                assert(kf[k] == files.last());
                assert(files.contains(files[files.len() - 1]));
            }
        }
    }
}

/// Membership in the surviving part of a diff application: exactly the old
/// items that the diff names on neither side.
pub proof fn lemma_kept_membership(
    files: Seq<ItemModel>,
    added: Seq<ItemModel>,
    removed: Seq<ItemModel>,
)
    ensures
        forall|x: ItemModel|
            #[trigger] kept_files(files, added, removed).contains(x) <==> (files.contains(x)
                && !removed.contains(x) && !added.contains(x)),
{
    lemma_kept_subset(files, added, removed);
    let kf = kept_files(files, added, removed);
    assert forall|x: ItemModel|
        #[trigger] kf.contains(x) <==> (files.contains(x) && !removed.contains(x)
        && !added.contains(x)) by {
        if kf.contains(x) {
            let k = choose|k: int| 0 <= k < kf.len() && kf[k] == x;
            files.lemma_filter_pred(keeps(added, removed), k);
            assert(keeps(added, removed)(x));
        }
        if files.contains(x) && !removed.contains(x) && !added.contains(x) {
            let i = choose|i: int| 0 <= i < files.len() && files[i] == x;
            assert(keeps(added, removed)(files[i]));
            files.lemma_filter_contains(keeps(added, removed), i);
        }
    }
}

/// A diff application at set level: the old items minus everything removed
/// minus everything about to be added, plus everything added — an item named
/// on both sides of the diff ends up present: added wins.
pub proof fn lemma_apply_diff_set(
    files: Seq<ItemModel>,
    added: Seq<ItemModel>,
    removed: Seq<ItemModel>,
)
    ensures
        apply_diff(files, added, removed).to_set() == files.to_set().difference(
            removed.to_set(),
        ).difference(added.to_set()).union(added.to_set()),
{
    lemma_kept_membership(files, added, removed);
    let kf = kept_files(files, added, removed);
    let lhs = apply_diff(files, added, removed).to_set();
    let rhs = files.to_set().difference(removed.to_set()).difference(added.to_set()).union(
        added.to_set(),
    );
    assert forall|x: ItemModel| lhs.contains(x) implies rhs.contains(x) by {
        let k = choose|k: int| 0 <= k < (kf + added).len() && (kf + added)[k] == x;
        if k < kf.len() {
            assert(kf[k] == x);
            assert(kf.contains(x));
        } else {
            assert(added[k - kf.len()] == x);
            assert(added.contains(x));
        }
    }
    assert forall|x: ItemModel| rhs.contains(x) implies lhs.contains(x) by {
        if added.contains(x) {
            let j = choose|j: int| 0 <= j < added.len() && added[j] == x;
            assert((kf + added)[kf.len() + j] == x);
        } else {
            assert(kf.contains(x));
            let k = choose|k: int| 0 <= k < kf.len() && kf[k] == x;
            assert((kf + added)[k] == x);
        }
    }
    assert(lhs =~= rhs);
}

/// Replace-then-apply law: after a full replacement with `base` and then one
/// diff report, the set of items recorded under `id` is
/// `(base − removed − added) ∪ added`.
pub proof fn lemma_replace_then_apply(
    m: Seq<SourceModel>,
    id: Seq<char>,
    base: Seq<ItemModel>,
    added: Seq<ItemModel>,
    removed: Seq<ItemModel>,
    now1: u64,
    now2: u64,
)
    requires
        wf_ids(m),
    ensures
        ({
            let m2 = spec_update(spec_set(m, id, base, now1), id, added, removed, now2);
            &&& has_id(m2, id)
            &&& files_of(m2, id).to_set() == base.to_set().difference(
                removed.to_set(),
            ).difference(added.to_set()).union(added.to_set())
            &&& rows_from(list_rows(m2, now2), id) == files_of(m2, id).map_values(
                |f: ItemModel| row_of(f, id, false),
            )
        }),
{
    lemma_spec_set_wf(m, id, base, now1);
    let m1 = spec_set(m, id, base, now1);
    let files2 = apply_diff(files_of(m1, id), added, removed);
    lemma_spec_set_wf(m1, id, files2, now2);
    lemma_apply_diff_set(base, added, removed);
    let m2 = spec_update(m1, id, added, removed, now2);
    lemma_rows_from_list(m2, now2, id);
    assert(source_rows(record(id, files2, now2), now2) =~= files2.map_values(
        |f: ItemModel| row_of(f, id, false),
    ));
}

/// Absent-id law: a diff applied under an id the store does not hold — for
/// instance one already expired — starts from nothing, so the record ends up
/// holding exactly the diff's added items; no error arises.
pub proof fn lemma_apply_to_absent(
    m: Seq<SourceModel>,
    id: Seq<char>,
    added: Seq<ItemModel>,
    removed: Seq<ItemModel>,
    now: u64,
)
    requires
        wf_ids(m),
        !has_id(m, id),
    ensures
        ({
            let m2 = spec_update(m, id, added, removed, now);
            &&& has_id(m2, id)
            &&& files_of(m2, id) == added
        }),
{
    reveal(Seq::filter);
    assert(kept_files(Seq::<ItemModel>::empty(), added, removed) == Seq::<ItemModel>::empty());
    assert(Seq::<ItemModel>::empty() + added =~= added);
    lemma_spec_set_wf(m, id, apply_diff(files_of(m, id), added, removed), now);
    assert(apply_diff(files_of(m, id), added, removed) == added);
}

/// Expiry law, first half: a source whose record has aged past the threshold
/// is gone after expiry — the view holds no row of it.
pub proof fn lemma_expired_source_gone(
    m: Seq<SourceModel>,
    id: Seq<char>,
    now: u64,
    threshold: u64,
)
    requires
        wf_ids(m),
        has_id(m, id),
        age_of(now, m[idx_of(m, id)].last_updated) > threshold,
    ensures
        ({
            let m1 = spec_expire(m, now, threshold);
            &&& !has_id(m1, id)
            &&& rows_from(list_rows(m1, now), id) == Seq::<RowModel>::empty()
        }),
{
    lemma_idx_of(m, id);
    lemma_expire_wf(m, now, threshold);
    let m1 = spec_expire(m, now, threshold);
    assert(!has_id(m1, id)) by {
        if has_id(m1, id) {
            let k = choose|k: int| 0 <= k < m1.len() && m1[k].id == id;
            m.lemma_filter_pred(alive(now, threshold), k);
            assert(m.contains(m1[k]));
            let j = choose|j: int| 0 <= j < m.len() && m[j] == m1[k];
            assert(j == idx_of(m, id));
        }
    }
    lemma_rows_from_list(m1, now, id);
}

/// Expiry law, second half: a source aged past the stale threshold but not
/// past the expiry threshold survives expiry, and every row it contributes
/// to the view is marked stale.
pub proof fn lemma_stale_source_shown(
    m: Seq<SourceModel>,
    id: Seq<char>,
    now: u64,
    threshold: u64,
)
    requires
        wf_ids(m),
        has_id(m, id),
        age_of(now, m[idx_of(m, id)].last_updated) > STALE_MILLIS,
        age_of(now, m[idx_of(m, id)].last_updated) <= threshold,
    ensures
        ({
            let m1 = spec_expire(m, now, threshold);
            &&& has_id(m1, id)
            &&& rows_from(list_rows(m1, now), id) == m[idx_of(m, id)].files.map_values(
                |f: ItemModel| row_of(f, id, true),
            )
        }),
{
    lemma_idx_of(m, id);
    lemma_expire_wf(m, now, threshold);
    let m1 = spec_expire(m, now, threshold);
    let e = m[idx_of(m, id)];
    assert(alive(now, threshold)(e));
    m.lemma_filter_contains(alive(now, threshold), idx_of(m, id));
    assert(m1.contains(e));
    let k = choose|k: int| 0 <= k < m1.len() && m1[k] == e;
    assert(has_id(m1, id));
    lemma_idx_of(m1, id);
    let k1 = idx_of(m1, id);
    assert(m1[k1] == e) by {
        assert(m.contains(m1[k1]));
        let j = choose|j: int| 0 <= j < m.len() && m[j] == m1[k1];
        assert(j == idx_of(m, id));
    }
    lemma_rows_from_list(m1, now, id);
    assert(source_rows(e, now) =~= m[idx_of(m, id)].files.map_values(
        |f: ItemModel| row_of(f, id, true),
    ));
}

proof fn lemma_kept_no_duplicates(
    files: Seq<ItemModel>,
    added: Seq<ItemModel>,
    removed: Seq<ItemModel>,
)
    requires
        files.no_duplicates(),
    ensures
        kept_files(files, added, removed).no_duplicates(),
    decreases files.len(),
{
    reveal(Seq::filter);
    if files.len() > 0 {
        let dl = files.drop_last();
        assert(dl.no_duplicates()) by {
            assert forall|a: int, b: int| 0 <= a < b < dl.len() implies dl[a] != dl[b] by {
                assert(dl[a] == files[a] && dl[b] == files[b]);
            }
        }
        lemma_kept_no_duplicates(dl, added, removed);
        lemma_kept_subset(dl, added, removed);
        let kf = kept_files(files, added, removed);
        let kd = kept_files(dl, added, removed);
        if keeps(added, removed)(files.last()) {
            assert(kf == kd.push(files.last()));
            assert forall|a: int, b: int| 0 <= a < b < kf.len() implies kf[a] != kf[b] by {
                if b == kf.len() - 1 {
                    assert(kf[a] == kd[a]);
                    assert(dl.contains(kd[a]));
                    let j = choose|j: int| 0 <= j < dl.len() && dl[j] == kd[a];
                    assert(files[j] == dl[j]);
                    assert(files[j] != files[files.len() - 1]);
                } else {
                    assert(kf[a] == kd[a] && kf[b] == kd[b]);
                }
            }
        }
    }
}

/// Record invariant: a record without duplicate items keeps that shape under
/// any diff whose added side holds no duplicates — such as one the diff
/// engine computed.
pub proof fn lemma_apply_diff_no_duplicates(
    files: Seq<ItemModel>,
    added: Seq<ItemModel>,
    removed: Seq<ItemModel>,
)
    requires
        files.no_duplicates(),
        added.no_duplicates(),
    ensures
        apply_diff(files, added, removed).no_duplicates(),
{
    lemma_kept_no_duplicates(files, added, removed);
    lemma_kept_membership(files, added, removed);
    let kf = kept_files(files, added, removed);
    let a = apply_diff(files, added, removed);
    assert forall|x: int, y: int| 0 <= x < y < a.len() implies a[x] != a[y] by {
        if y < kf.len() {
            assert(a[x] == kf[x] && a[y] == kf[y]);
        } else if x >= kf.len() {
            assert(a[x] == added[x - kf.len()] && a[y] == added[y - kf.len()]);
        } else {
            assert(a[x] == kf[x] && a[y] == added[y - kf.len()]);
            assert(kf.contains(kf[x]));
            if a[x] == a[y] {
                assert(added.contains(kf[x]));
            }
        }
    }
}

} // verus!
