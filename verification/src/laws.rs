//! What holds of a deployment as a whole.
use vstd::prelude::*;
use crate::deploy::{
    DeleteAction, FileCompareState, FsStepView, UpdateAction, after_deletion, after_new_file,
    delete_outcome, delete_symlink_steps, delete_template_steps, update_outcome,
    update_symlink_steps, update_template_steps, forced_symlink_state, forced_template_state,
};
use crate::files::{PairView, entries_normal, files_map, sources_sorted, has_source, lemma_files_map_entry};
use crate::path::{is_normal_path, joined_path, path_lt, lemma_path_lt_irreflexive, lemma_path_lt_asymmetric};
use crate::plan::{FileKind, Stage, TaskOutcome, TaskView, after_task, planned_tasks, tagged};
use crate::state::{DescriptionView, FileStateView, descriptions, descriptions_sorted, minus, common};

verus! {

broadcast use vstd::seq_lib::group_seq_properties, vstd::seq_lib::group_filter_ensures;

/// The cache after the files `deleted` were dealt with in turn, `actions`
/// telling what came of each.
pub open spec fn cache_after_deletions(
    cache: Map<Seq<char>, Seq<char>>,
    deleted: Seq<DescriptionView>,
    actions: Seq<DeleteAction>,
) -> Map<Seq<char>, Seq<char>>
    decreases deleted.len(),
{
    if deleted.len() == 0 {
        cache
    } else {
        let last = deleted.last();
        after_deletion(
            cache_after_deletions(cache, deleted.drop_last(), actions),
            (last.source, last.target),
            actions[deleted.len() - 1],
        )
    }
}

/// The cache after the files `new_files` were dealt with in turn, `actions`
/// telling what came of each.
pub open spec fn cache_after_new_files(
    cache: Map<Seq<char>, Seq<char>>,
    new_files: Seq<DescriptionView>,
    actions: Seq<UpdateAction>,
) -> Map<Seq<char>, Seq<char>>
    decreases new_files.len(),
{
    if new_files.len() == 0 {
        cache
    } else {
        let last = new_files.last();
        after_new_file(
            cache_after_new_files(cache, new_files.drop_last(), actions),
            (last.source, last.target),
            actions[new_files.len() - 1],
        )
    }
}

/// Every source and target of `ds` is in normal form.
pub open spec fn descriptions_normal(ds: Seq<DescriptionView>) -> bool {
    forall|i: int|
        #![trigger ds[i]]
        0 <= i < ds.len() ==> is_normal_path(ds[i].source) && is_normal_path(ds[i].target)
}

/// Dropping the last description keeps them normal.
proof fn lemma_normal_drop_last(ds: Seq<DescriptionView>)
    requires
        descriptions_normal(ds),
        ds.len() > 0,
    ensures
        descriptions_normal(ds.drop_last()),
        is_normal_path(ds.last().source),
        is_normal_path(ds.last().target),
{
    let d = ds.drop_last();
    assert forall|i: int| 0 <= i < d.len() implies is_normal_path(#[trigger] d[i].source)
        && is_normal_path(d[i].target) by {
        assert(d[i] == ds[i]);
    }
    assert(ds[ds.len() - 1] == ds.last());
}

/// Some description of `ds` has the source `k`.
pub open spec fn has_description_source(ds: Seq<DescriptionView>, k: Seq<char>) -> bool {
    exists|i: int| 0 <= i < ds.len() && #[trigger] ds[i].source == k
}

/// Filtering sorted descriptions keeps them sorted.
pub proof fn lemma_filter_sorted(a: Seq<DescriptionView>, pred: spec_fn(DescriptionView) -> bool)
    requires
        descriptions_sorted(a),
    ensures
        descriptions_sorted(a.filter(pred)),
    decreases a.len(),
{
    reveal(Seq::filter);
    if a.len() > 0 {
        let d = a.drop_last();
        assert(descriptions_sorted(d)) by {
            assert forall|i: int, j: int| 0 <= i < j < d.len() implies path_lt(
                #[trigger] d[i].source,
                #[trigger] d[j].source,
            ) by {
                assert(path_lt(a[i].source, a[j].source));
            }
        }
        lemma_filter_sorted(d, pred);
        let rest = d.filter(pred);
        if pred(a.last()) {
            let r = rest.push(a.last());
            assert(a.filter(pred) == r);
            assert forall|i: int, j: int| 0 <= i < j < r.len() implies path_lt(
                #[trigger] r[i].source,
                #[trigger] r[j].source,
            ) by {
                if j < rest.len() {
                    assert(path_lt(rest[i].source, rest[j].source));
                } else {
                    assert(rest.contains(rest[i]));
                    d.lemma_filter_contains_rev(pred, rest[i]);
                    let p = choose|p: int| 0 <= p < d.len() && d[p] == rest[i];
                    assert(path_lt(a[p].source, a[a.len() - 1].source));
                }
            }
        }
    }
}

/// Sorted descriptions hold at most one description per source.
proof fn lemma_sorted_unique(ds: Seq<DescriptionView>, i: int, j: int)
    requires
        descriptions_sorted(ds),
        0 <= i < ds.len(),
        0 <= j < ds.len(),
        ds[i].source == ds[j].source,
    ensures
        i == j,
{
    lemma_path_lt_irreflexive(ds[i].source);
    if i < j {
        assert(path_lt(ds[i].source, ds[j].source));
    } else if j < i {
        assert(path_lt(ds[j].source, ds[i].source));
    }
}

/// Where nothing was left alone, the files dealt with are gone from the
/// cache and the rest of it is as it was.
proof fn lemma_deletions_remove(
    cache: Map<Seq<char>, Seq<char>>,
    deleted: Seq<DescriptionView>,
    actions: Seq<DeleteAction>,
)
    requires
        actions.len() == deleted.len(),
        forall|i: int|
            0 <= i < actions.len() ==> #[trigger] actions[i] != DeleteAction::SkippedBecauseChanged,
        descriptions_normal(deleted),
    ensures
        forall|k: Seq<char>| #[trigger]
            cache_after_deletions(cache, deleted, actions).contains_key(k) <==> cache.contains_key(k)
                && !has_description_source(deleted, k),
        forall|k: Seq<char>| #[trigger]
            cache_after_deletions(cache, deleted, actions).contains_key(k) ==> cache_after_deletions(
                cache,
                deleted,
                actions,
            )[k] == cache[k],
    decreases deleted.len(),
{
    if deleted.len() > 0 {
        let d = deleted.drop_last();
        let a = actions.drop_last();
        assert forall|i: int| 0 <= i < a.len() implies #[trigger] a[i]
            != DeleteAction::SkippedBecauseChanged by {
            assert(a[i] == actions[i]);
        }
        lemma_normal_drop_last(deleted);
        lemma_deletions_remove(cache, d, a);
        assert(cache_after_deletions(cache, d, actions) == cache_after_deletions(cache, d, a)) by {
            lemma_deletions_prefix(cache, d, actions, a);
        }
        assert(actions[deleted.len() - 1] != DeleteAction::SkippedBecauseChanged);
        assert forall|k: Seq<char>| #[trigger]
            has_description_source(deleted, k) <==> has_description_source(d, k)
                || deleted.last().source == k by {
            if has_description_source(deleted, k) {
                let i = choose|i: int| 0 <= i < deleted.len() && #[trigger] deleted[i].source == k;
                if i < d.len() {
                    assert(d[i].source == k);
                }
            }
            if has_description_source(d, k) {
                let i = choose|i: int| 0 <= i < d.len() && #[trigger] d[i].source == k;
                assert(deleted[i].source == k);
            }
        }
    }
}

/// The cache after deletions depends only on the actions of the files
/// dealt with.
proof fn lemma_deletions_prefix(
    cache: Map<Seq<char>, Seq<char>>,
    deleted: Seq<DescriptionView>,
    a1: Seq<DeleteAction>,
    a2: Seq<DeleteAction>,
)
    requires
        forall|i: int| 0 <= i < deleted.len() ==> a1[i] == a2[i],
    ensures
        cache_after_deletions(cache, deleted, a1) == cache_after_deletions(cache, deleted, a2),
    decreases deleted.len(),
{
    if deleted.len() > 0 {
        lemma_deletions_prefix(cache, deleted.drop_last(), a1, a2);
    }
}

/// The cache after new files depends only on the actions of the files
/// dealt with.
proof fn lemma_new_files_prefix(
    cache: Map<Seq<char>, Seq<char>>,
    new_files: Seq<DescriptionView>,
    a1: Seq<UpdateAction>,
    a2: Seq<UpdateAction>,
)
    requires
        forall|i: int| 0 <= i < new_files.len() ==> a1[i] == a2[i],
    ensures
        cache_after_new_files(cache, new_files, a1) == cache_after_new_files(cache, new_files, a2),
    decreases new_files.len(),
{
    if new_files.len() > 0 {
        lemma_new_files_prefix(cache, new_files.drop_last(), a1, a2);
    }
}

/// Where nothing was left alone, every new file is recorded with its target
/// and the rest of the cache is as it was.
proof fn lemma_new_files_insert(
    cache: Map<Seq<char>, Seq<char>>,
    new_files: Seq<DescriptionView>,
    actions: Seq<UpdateAction>,
)
    requires
        actions.len() == new_files.len(),
        forall|i: int|
            0 <= i < actions.len() ==> #[trigger] actions[i] != UpdateAction::SkippedBecauseChanged,
        descriptions_sorted(new_files),
        descriptions_normal(new_files),
    ensures
        forall|k: Seq<char>| #[trigger]
            cache_after_new_files(cache, new_files, actions).contains_key(k) <==> cache.contains_key(k)
                || has_description_source(new_files, k),
        forall|i: int|
            0 <= i < new_files.len() ==> cache_after_new_files(cache, new_files, actions)[#[trigger] new_files[i].source]
                == new_files[i].target,
        forall|k: Seq<char>|
            cache.contains_key(k) && !has_description_source(new_files, k) ==> #[trigger] cache_after_new_files(
                cache,
                new_files,
                actions,
            )[k] == cache[k],
    decreases new_files.len(),
{
    if new_files.len() > 0 {
        let n = new_files.len() - 1;
        let d = new_files.drop_last();
        let a = actions.drop_last();
        assert forall|i: int| 0 <= i < a.len() implies #[trigger] a[i]
            != UpdateAction::SkippedBecauseChanged by {
            assert(a[i] == actions[i]);
        }
        assert(descriptions_sorted(d)) by {
            assert forall|i: int, j: int| 0 <= i < j < d.len() implies path_lt(
                #[trigger] d[i].source,
                #[trigger] d[j].source,
            ) by {
                assert(path_lt(new_files[i].source, new_files[j].source));
            }
        }
        lemma_normal_drop_last(new_files);
        lemma_new_files_insert(cache, d, a);
        lemma_new_files_prefix(cache, d, actions, a);
        assert(actions[n] != UpdateAction::SkippedBecauseChanged);
        let prev = cache_after_new_files(cache, d, a);
        let last = new_files[n];
        assert(cache_after_new_files(cache, new_files, actions) == prev.insert(last.source, last.target));
        assert forall|k: Seq<char>| #[trigger]
            has_description_source(new_files, k) <==> has_description_source(d, k) || last.source
                == k by {
            if has_description_source(new_files, k) {
                let i = choose|i: int| 0 <= i < new_files.len() && #[trigger] new_files[i].source == k;
                if i < d.len() {
                    assert(d[i].source == k);
                }
            }
            if has_description_source(d, k) {
                let i = choose|i: int| 0 <= i < d.len() && #[trigger] d[i].source == k;
                assert(new_files[i].source == k);
            }
        }
        assert forall|i: int| 0 <= i < new_files.len() implies prev.insert(
            last.source,
            last.target,
        )[#[trigger] new_files[i].source] == new_files[i].target by {
            if i < n {
                if new_files[i].source == last.source {
                    lemma_sorted_unique(new_files, i, n);
                }
                assert(d[i] == new_files[i]);
            }
        }
        assert forall|k: Seq<char>|
            cache.contains_key(k) && !has_description_source(new_files, k) implies #[trigger] prev.insert(
            last.source,
            last.target,
        )[k] == cache[k] by {
            assert(!has_description_source(d, k));
        }
    }
}

/// The descriptions of entries are the entries with their caches.
proof fn lemma_descriptions_index(s: Seq<PairView>, c: Seq<char>, i: int)
    requires
        0 <= i < s.len(),
    ensures
        descriptions(s, c)[i] == (DescriptionView {
            source: s[i].0,
            target: s[i].1,
            cache: joined_path(c, s[i].0),
        }),
{
}

/// A description is among those of `s` exactly when its entry is in `s`.
proof fn lemma_descriptions_contains(s: Seq<PairView>, c: Seq<char>, d: DescriptionView)
    ensures
        descriptions(s, c).contains(d) <==> (s.contains((d.source, d.target)) && d.cache
            == joined_path(c, d.source)),
{
    let ds = descriptions(s, c);
    if ds.contains(d) {
        let i = choose|i: int| 0 <= i < ds.len() && ds[i] == d;
        lemma_descriptions_index(s, c, i);
        assert(s[i] == (d.source, d.target));
    }
    if s.contains((d.source, d.target)) && d.cache == joined_path(c, d.source) {
        let i = choose|i: int| 0 <= i < s.len() && s[i] == (d.source, d.target);
        lemma_descriptions_index(s, c, i);
        assert(ds[i] == d);
    }
}

/// Filtering the descriptions of normal entries gives normal descriptions.
proof fn lemma_filtered_normal(
    s: Seq<PairView>,
    c: Seq<char>,
    pred: spec_fn(DescriptionView) -> bool,
)
    requires
        entries_normal(s),
    ensures
        descriptions_normal(descriptions(s, c).filter(pred)),
{
    let ds = descriptions(s, c);
    let f = ds.filter(pred);
    assert forall|i: int| 0 <= i < f.len() implies is_normal_path(#[trigger] f[i].source)
        && is_normal_path(f[i].target) by {
        assert(f.contains(f[i]));
        ds.lemma_filter_contains_rev(pred, f[i]);
        let q = choose|q: int| 0 <= q < ds.len() && ds[q] == f[i];
        lemma_descriptions_index(s, c, q);
        assert(is_normal_path(s[q].0) && is_normal_path(s[q].1));
    }
}

/// Deploying brings the cache to the wanted files.  Starting from the cache
/// of deployed files `existing`, removing each file that is no longer
/// wanted and then deploying each new file, where no file was left alone
/// because it had been changed, the cache records exactly the wanted files
/// `desired`.
pub proof fn lemma_deploy_reaches_desired(
    existing: Seq<PairView>,
    desired: Seq<PairView>,
    cache_dir: Seq<char>,
    delete_actions: Seq<DeleteAction>,
    update_actions: Seq<UpdateAction>,
)
    requires
        sources_sorted(existing),
        sources_sorted(desired),
        entries_normal(existing),
        entries_normal(desired),
        delete_actions.len() == minus(
            descriptions(existing, cache_dir),
            descriptions(desired, cache_dir),
        ).len(),
        update_actions.len() == minus(
            descriptions(desired, cache_dir),
            descriptions(existing, cache_dir),
        ).len(),
        forall|i: int|
            0 <= i < delete_actions.len() ==> #[trigger] delete_actions[i]
                != DeleteAction::SkippedBecauseChanged,
        forall|i: int|
            0 <= i < update_actions.len() ==> #[trigger] update_actions[i]
                != UpdateAction::SkippedBecauseChanged,
    ensures
        cache_after_new_files(
            cache_after_deletions(
                files_map(existing),
                minus(descriptions(existing, cache_dir), descriptions(desired, cache_dir)),
                delete_actions,
            ),
            minus(descriptions(desired, cache_dir), descriptions(existing, cache_dir)),
            update_actions,
        ) == files_map(desired),
{
    let e = descriptions(existing, cache_dir);
    let d = descriptions(desired, cache_dir);
    let deleted = minus(e, d);
    let new_files = minus(d, e);
    let start = files_map(existing);
    let middle = cache_after_deletions(start, deleted, delete_actions);
    let end = cache_after_new_files(middle, new_files, update_actions);
    assert(descriptions_sorted(d)) by {
        assert forall|i: int, j: int| 0 <= i < j < d.len() implies path_lt(
            #[trigger] d[i].source,
            #[trigger] d[j].source,
        ) by {
            assert(path_lt(desired[i].0, desired[j].0));
        }
    }
    lemma_filter_sorted(d, |x: DescriptionView| !e.contains(x));
    lemma_filtered_normal(existing, cache_dir, |x: DescriptionView| !d.contains(x));
    lemma_filtered_normal(desired, cache_dir, |x: DescriptionView| !e.contains(x));
    lemma_deletions_remove(start, deleted, delete_actions);
    lemma_new_files_insert(middle, new_files, update_actions);
    assert forall|k: Seq<char>| #[trigger] end.contains_key(k) <==> files_map(desired).contains_key(
        k,
    ) by {
        if has_source(desired, k) {
            let i = choose|i: int| 0 <= i < desired.len() && #[trigger] desired[i].0 == k;
            lemma_descriptions_index(desired, cache_dir, i);
            if !e.contains(d[i]) {
                assert(new_files.contains(d[i]));
                let j = choose|j: int| 0 <= j < new_files.len() && new_files[j] == d[i];
                assert(new_files[j].source == k);
            } else {
                lemma_descriptions_contains(existing, cache_dir, d[i]);
                let j = choose|j: int| 0 <= j < existing.len() && existing[j] == desired[i];
                assert(existing[j].0 == k);
                lemma_files_map_entry(existing, j);
                if has_description_source(deleted, k) {
                    let m = choose|m: int| 0 <= m < deleted.len() && #[trigger] deleted[m].source == k;
                    assert(deleted.contains(deleted[m]));
                    e.lemma_filter_contains_rev(|x: DescriptionView| !d.contains(x), deleted[m]);
                    lemma_descriptions_contains(existing, cache_dir, deleted[m]);
                    let q = choose|q: int| 0 <= q < existing.len() && existing[q] == (deleted[m].source, deleted[m].target);
                    assert(existing[q].0 == existing[j].0);
                    assert(q == j) by {
                        if q < j {
                            assert(path_lt(existing[q].0, existing[j].0));
                        } else if j < q {
                            assert(path_lt(existing[j].0, existing[q].0));
                        }
                        lemma_path_lt_irreflexive(k);
                    }
                    assert(deleted[m] == d[i]);
                }
            }
        }
        if end.contains_key(k) && !has_source(desired, k) {
            if has_description_source(new_files, k) {
                let m = choose|m: int| 0 <= m < new_files.len() && #[trigger] new_files[m].source == k;
                assert(new_files.contains(new_files[m]));
                d.lemma_filter_contains_rev(|x: DescriptionView| !e.contains(x), new_files[m]);
                lemma_descriptions_contains(desired, cache_dir, new_files[m]);
                let q = choose|q: int| 0 <= q < desired.len() && desired[q] == (new_files[m].source, new_files[m].target);
                assert(desired[q].0 == k);
            } else {
                assert(middle.contains_key(k));
                assert(has_source(existing, k));
                let j = choose|j: int| 0 <= j < existing.len() && #[trigger] existing[j].0 == k;
                lemma_descriptions_index(existing, cache_dir, j);
                lemma_descriptions_contains(desired, cache_dir, e[j]);
                if d.contains(e[j]) {
                    let q = choose|q: int| 0 <= q < desired.len() && desired[q] == existing[j];
                    assert(desired[q].0 == k);
                }
                assert(deleted.contains(e[j]));
                let m = choose|m: int| 0 <= m < deleted.len() && deleted[m] == e[j];
                assert(deleted[m].source == k);
            }
        }
    }
    assert forall|k: Seq<char>| #[trigger] end.contains_key(k) implies end[k] == files_map(
        desired,
    )[k] by {
        assert(has_source(desired, k));
        let i = choose|i: int| 0 <= i < desired.len() && #[trigger] desired[i].0 == k;
        lemma_files_map_entry(desired, i);
        lemma_descriptions_index(desired, cache_dir, i);
        if !e.contains(d[i]) {
            assert(new_files.contains(d[i]));
            let j = choose|j: int| 0 <= j < new_files.len() && new_files[j] == d[i];
            assert(end[new_files[j].source] == new_files[j].target);
        } else {
            lemma_descriptions_contains(existing, cache_dir, d[i]);
            let j = choose|j: int| 0 <= j < existing.len() && existing[j] == desired[i];
            lemma_files_map_entry(existing, j);
            if has_description_source(new_files, k) {
                let m = choose|m: int| 0 <= m < new_files.len() && #[trigger] new_files[m].source == k;
                assert(new_files.contains(new_files[m]));
                d.lemma_filter_contains_rev(|x: DescriptionView| !e.contains(x), new_files[m]);
                let q = choose|q: int| 0 <= q < d.len() && d[q] == new_files[m];
                lemma_sorted_unique(d, q, i);
                assert(false);
            }
            assert(middle.contains_key(k));
        }
    }
    assert(end =~= files_map(desired));
}

/// An element is in `a.filter(pred)` exactly when it is in `a` and meets
/// `pred`.
proof fn lemma_filter_membership(
    a: Seq<DescriptionView>,
    pred: spec_fn(DescriptionView) -> bool,
    x: DescriptionView,
)
    ensures
        a.filter(pred).contains(x) <==> (a.contains(x) && pred(x)),
{
    if a.filter(pred).contains(x) {
        a.lemma_filter_contains_rev(pred, x);
        let i = choose|i: int| 0 <= i < a.filter(pred).len() && a.filter(pred)[i] == x;
        a.lemma_filter_pred(pred, i);
    }
    if a.contains(x) && pred(x) {
        let i = choose|i: int| 0 <= i < a.len() && a[i] == x;
        a.lemma_filter_contains(pred, i);
    }
}

/// Every deployed file is either gone or kept, and never both; every wanted
/// file is either new or kept, and never both; no file is both gone and new.
pub proof fn lemma_files_partition(desired: Seq<DescriptionView>, existing: Seq<DescriptionView>)
    ensures
        forall|x: DescriptionView| #[trigger]
            existing.contains(x) <==> (minus(existing, desired).contains(x) || common(
                desired,
                existing,
            ).contains(x)),
        forall|x: DescriptionView| #[trigger]
            desired.contains(x) <==> (minus(desired, existing).contains(x) || common(
                desired,
                existing,
            ).contains(x)),
        forall|x: DescriptionView|
            !(#[trigger] minus(existing, desired).contains(x) && common(desired, existing).contains(
                x,
            )),
        forall|x: DescriptionView|
            !(#[trigger] minus(desired, existing).contains(x) && common(desired, existing).contains(
                x,
            )),
        forall|x: DescriptionView|
            !(#[trigger] minus(existing, desired).contains(x) && minus(desired, existing).contains(
                x,
            )),
{
    assert forall|x: DescriptionView| #[trigger]
        existing.contains(x) <==> (minus(existing, desired).contains(x) || common(
            desired,
            existing,
        ).contains(x)) by {
        lemma_membership(desired, existing, x);
    }
    assert forall|x: DescriptionView| #[trigger]
        desired.contains(x) <==> (minus(desired, existing).contains(x) || common(
            desired,
            existing,
        ).contains(x)) by {
        lemma_membership(desired, existing, x);
    }
    assert forall|x: DescriptionView|
        !(#[trigger] minus(existing, desired).contains(x) && common(desired, existing).contains(
            x,
        )) by {
        lemma_membership(desired, existing, x);
    }
    assert forall|x: DescriptionView|
        !(#[trigger] minus(desired, existing).contains(x) && common(desired, existing).contains(
            x,
        )) by {
        lemma_membership(desired, existing, x);
    }
    assert forall|x: DescriptionView|
        !(#[trigger] minus(existing, desired).contains(x) && minus(desired, existing).contains(
            x,
        )) by {
        lemma_membership(desired, existing, x);
    }
}

proof fn lemma_membership(desired: Seq<DescriptionView>, existing: Seq<DescriptionView>, x: DescriptionView)
    ensures
        minus(existing, desired).contains(x) <==> (existing.contains(x) && !desired.contains(x)),
        minus(desired, existing).contains(x) <==> (desired.contains(x) && !existing.contains(x)),
        common(desired, existing).contains(x) <==> (desired.contains(x) && existing.contains(x)),
{
    lemma_filter_membership(existing, |d: DescriptionView| !desired.contains(d), x);
    lemma_filter_membership(desired, |d: DescriptionView| !existing.contains(d), x);
    lemma_filter_membership(desired, |d: DescriptionView| existing.contains(d), x);
}

/// Deploying again changes nothing: where the deployed files are the wanted
/// ones, no file is gone or new, and every file is kept, in its order.
pub proof fn lemma_redeploy_changes_nothing(files: Seq<DescriptionView>)
    ensures
        minus(files, files) == Seq::<DescriptionView>::empty(),
        common(files, files) == files,
{
    lemma_filter_all(files, files);
    let gone = minus(files, files);
    if gone.len() > 0 {
        assert(gone.contains(gone[0]));
        lemma_filter_membership(files, |d: DescriptionView| !files.contains(d), gone[0]);
    }
    assert(gone =~= Seq::<DescriptionView>::empty());
}

/// Keeping the elements of `a` that are in `b` keeps all of `a` where all of
/// `a` is in `b`.
proof fn lemma_filter_all(a: Seq<DescriptionView>, b: Seq<DescriptionView>)
    requires
        forall|x: DescriptionView| a.contains(x) ==> b.contains(x),
    ensures
        common(a, b) == a,
    decreases a.len(),
{
    reveal(Seq::filter);
    if a.len() > 0 {
        let d = a.drop_last();
        assert forall|x: DescriptionView| d.contains(x) implies b.contains(x) by {
            let i = choose|i: int| 0 <= i < d.len() && d[i] == x;
            assert(a[i] == x);
        }
        lemma_filter_all(d, b);
        assert(a.contains(a.last()));
        assert(d.push(a.last()) =~= a);
    }
}

/// A dry run does nothing on disk: without `act`, no file is removed,
/// linked or rendered, whatever is found on disk and whether or not `force`
/// is set.
pub proof fn lemma_dry_run_touches_nothing(
    file: DescriptionView,
    comparison: FileCompareState,
    force: bool,
)
    ensures
        delete_symlink_steps(false, file, comparison) == Seq::<FsStepView>::empty(),
        delete_template_steps(false, file, comparison) == Seq::<FsStepView>::empty(),
        update_symlink_steps(false, file, comparison, force) == Seq::<FsStepView>::empty(),
        update_template_steps(false, file, comparison, force) == Seq::<FsStepView>::empty(),
{
    assert(update_symlink_steps(false, file, comparison, force) =~= Seq::<FsStepView>::empty());
    assert(update_template_steps(false, file, comparison, force) =~= Seq::<FsStepView>::empty());
}

/// A file changed since it was deployed is left alone without `force`:
/// nothing is done on disk, it is reported as skipped, and the cache keeps
/// what it recorded of it.
pub proof fn lemma_changed_files_are_left_alone(
    act: bool,
    file: DescriptionView,
    cache: Map<Seq<char>, Seq<char>>,
)
    ensures
        delete_symlink_steps(act, file, FileCompareState::Changed) == Seq::<FsStepView>::empty(),
        delete_template_steps(act, file, FileCompareState::Changed) == Seq::<FsStepView>::empty(),
        update_symlink_steps(act, file, FileCompareState::Changed, false) == Seq::<
            FsStepView,
        >::empty(),
        update_template_steps(act, file, FileCompareState::Changed, false) == Seq::<
            FsStepView,
        >::empty(),
        delete_outcome(FileCompareState::Changed) == DeleteAction::SkippedBecauseChanged,
        update_outcome(forced_symlink_state(FileCompareState::Changed, false))
            == UpdateAction::SkippedBecauseChanged,
        update_outcome(forced_template_state(FileCompareState::Changed, false))
            == UpdateAction::SkippedBecauseChanged,
        after_deletion(cache, (file.source, file.target), DeleteAction::SkippedBecauseChanged)
            == cache,
        after_new_file(cache, (file.source, file.target), UpdateAction::SkippedBecauseChanged)
            == cache,
{
    assert(update_symlink_steps(act, file, FileCompareState::Changed, false) =~= Seq::<
        FsStepView,
    >::empty());
    assert(update_template_steps(act, file, FileCompareState::Changed, false) =~= Seq::<
        FsStepView,
    >::empty());
}

/// The descriptions of entries sorted by source are sorted by source.
proof fn lemma_descriptions_sorted(s: Seq<PairView>, c: Seq<char>)
    requires
        sources_sorted(s),
    ensures
        descriptions_sorted(descriptions(s, c)),
{
    let d = descriptions(s, c);
    assert forall|i: int, j: int| 0 <= i < j < d.len() implies path_lt(
        #[trigger] d[i].source,
        #[trigger] d[j].source,
    ) by {
        assert(path_lt(s[i].0, s[j].0));
    }
}

/// Two sequences of descriptions sorted by source that hold the same
/// descriptions are the same sequence.
proof fn lemma_sorted_same_elements(x: Seq<DescriptionView>, y: Seq<DescriptionView>)
    requires
        descriptions_sorted(x),
        descriptions_sorted(y),
        forall|e: DescriptionView| x.contains(e) <==> y.contains(e),
    ensures
        x == y,
    decreases x.len(),
{
    if x.len() == 0 {
        if y.len() > 0 {
            assert(y.contains(y[0]));
        }
        assert(x =~= y);
    } else {
        assert(x.contains(x[0]));
        assert(y.len() > 0);
        assert(y.contains(y[0]));
        let j = choose|j: int| 0 <= j < y.len() && y[j] == x[0];
        let k = choose|k: int| 0 <= k < x.len() && x[k] == y[0];
        if k > 0 {
            assert(path_lt(x[0].source, x[k].source));
            if j > 0 {
                assert(path_lt(y[0].source, y[j].source));
                lemma_path_lt_asymmetric(x[0].source, y[0].source);
            } else {
                lemma_sorted_unique(x, 0, k);
            }
        }
        let x1 = x.drop_first();
        let y1 = y.drop_first();
        assert(descriptions_sorted(x1)) by {
            assert forall|i: int, l: int| 0 <= i < l < x1.len() implies path_lt(
                #[trigger] x1[i].source,
                #[trigger] x1[l].source,
            ) by {
                assert(path_lt(x[i + 1].source, x[l + 1].source));
            }
        }
        assert(descriptions_sorted(y1)) by {
            assert forall|i: int, l: int| 0 <= i < l < y1.len() implies path_lt(
                #[trigger] y1[i].source,
                #[trigger] y1[l].source,
            ) by {
                assert(path_lt(y[i + 1].source, y[l + 1].source));
            }
        }
        assert forall|e: DescriptionView| x1.contains(e) <==> y1.contains(e) by {
            if x1.contains(e) {
                let p = choose|p: int| 0 <= p < x1.len() && x1[p] == e;
                assert(x.contains(e));
                let q = choose|q: int| 0 <= q < y.len() && y[q] == e;
                if q == 0 {
                    lemma_sorted_unique(x, 0, p + 1);
                }
                assert(y1[q - 1] == e);
            }
            if y1.contains(e) {
                let p = choose|p: int| 0 <= p < y1.len() && y1[p] == e;
                assert(y.contains(e));
                let q = choose|q: int| 0 <= q < x.len() && x[q] == e;
                if q == 0 {
                    lemma_sorted_unique(y, 0, p + 1);
                }
                assert(x1[q - 1] == e);
            }
        }
        lemma_sorted_same_elements(x1, y1);
        assert(x =~= y) by {
            assert forall|i: int| 0 <= i < x.len() implies x[i] == y[i] by {
                if i > 0 {
                    assert(x1[i - 1] == y1[i - 1]);
                }
            }
        }
    }
}

/// Swapping the wanted and the deployed files leaves the kept files as they
/// are: the files both wanted and deployed are the same, in the same order,
/// whichever side they are taken from.
pub proof fn lemma_kept_files_symmetric(
    desired: Seq<PairView>,
    existing: Seq<PairView>,
    cache_dir: Seq<char>,
)
    requires
        sources_sorted(desired),
        sources_sorted(existing),
    ensures
        common(descriptions(desired, cache_dir), descriptions(existing, cache_dir)) == common(
            descriptions(existing, cache_dir),
            descriptions(desired, cache_dir),
        ),
{
    let d = descriptions(desired, cache_dir);
    let e = descriptions(existing, cache_dir);
    lemma_descriptions_sorted(desired, cache_dir);
    lemma_descriptions_sorted(existing, cache_dir);
    lemma_filter_sorted(d, |x: DescriptionView| e.contains(x));
    lemma_filter_sorted(e, |x: DescriptionView| d.contains(x));
    assert forall|x: DescriptionView| common(d, e).contains(x) <==> common(e, d).contains(x) by {
        lemma_membership(d, e, x);
        lemma_membership(e, d, x);
    }
    lemma_sorted_same_elements(common(d, e), common(e, d));
}

/// The caches of symbolic links and of templates after the tasks `tasks`
/// were dealt with in turn, `outcomes` telling what came of each.
pub open spec fn caches_after_tasks(
    caches: (Map<Seq<char>, Seq<char>>, Map<Seq<char>, Seq<char>>),
    tasks: Seq<TaskView>,
    outcomes: Seq<TaskOutcome>,
) -> (Map<Seq<char>, Seq<char>>, Map<Seq<char>, Seq<char>>)
    decreases tasks.len(),
{
    if tasks.len() == 0 {
        caches
    } else {
        after_task(
            caches_after_tasks(caches, tasks.drop_last(), outcomes),
            tasks.last(),
            outcomes[tasks.len() - 1],
        )
    }
}

/// The task was carried out: a file to remove was removed (or was missing),
/// a file to deploy was deployed; a file deployed again may come out as it
/// will.
pub open spec fn went_through(task: TaskView, outcome: TaskOutcome) -> bool {
    match task.stage {
        Stage::Delete => outcome matches TaskOutcome::Deletion(a) && a
            != DeleteAction::SkippedBecauseChanged,
        Stage::Create => outcome matches TaskOutcome::Deployment(a) && a
            != UpdateAction::SkippedBecauseChanged,
        Stage::Update => true,
    }
}

/// What came of removals, read off task outcomes.
pub open spec fn deletion_actions(outcomes: Seq<TaskOutcome>) -> Seq<DeleteAction> {
    Seq::new(
        outcomes.len(),
        |i: int|
            match outcomes[i] {
                TaskOutcome::Deletion(a) => a,
                TaskOutcome::Deployment(_) => DeleteAction::SkippedBecauseChanged,
            },
    )
}

/// What came of deployments, read off task outcomes.
pub open spec fn deployment_actions(outcomes: Seq<TaskOutcome>) -> Seq<UpdateAction> {
    Seq::new(
        outcomes.len(),
        |i: int|
            match outcomes[i] {
                TaskOutcome::Deployment(a) => a,
                TaskOutcome::Deletion(_) => UpdateAction::SkippedBecauseChanged,
            },
    )
}

/// Dealing with `a + b` is dealing with `a`, then with `b`.
proof fn lemma_tasks_split(
    caches: (Map<Seq<char>, Seq<char>>, Map<Seq<char>, Seq<char>>),
    a: Seq<TaskView>,
    b: Seq<TaskView>,
    outcomes: Seq<TaskOutcome>,
)
    requires
        outcomes.len() >= a.len() + b.len(),
    ensures
        caches_after_tasks(caches, a + b, outcomes) == caches_after_tasks(
            caches_after_tasks(caches, a, outcomes),
            b,
            outcomes.skip(a.len() as int),
        ),
    decreases b.len(),
{
    if b.len() == 0 {
        assert(a + b =~= a);
    } else {
        let b1 = b.drop_last();
        lemma_tasks_split(caches, a, b1, outcomes);
        assert((a + b).drop_last() =~= a + b1);
        assert((a + b).last() == b.last());
        assert(outcomes[(a + b).len() - 1] == outcomes.skip(a.len() as int)[b.len() - 1]);
    }
}

/// Dealing with a block of files of one stage and kind.
proof fn lemma_tasks_block(
    caches: (Map<Seq<char>, Seq<char>>, Map<Seq<char>, Seq<char>>),
    files: Seq<DescriptionView>,
    stage: Stage,
    kind: FileKind,
    outcomes: Seq<TaskOutcome>,
)
    requires
        outcomes.len() >= files.len(),
    ensures
        caches_after_tasks(caches, tagged(files, stage, kind), outcomes) == match stage {
            Stage::Delete => if kind == FileKind::Symlink {
                (cache_after_deletions(caches.0, files, deletion_actions(outcomes)), caches.1)
            } else {
                (caches.0, cache_after_deletions(caches.1, files, deletion_actions(outcomes)))
            },
            Stage::Create => if kind == FileKind::Symlink {
                (cache_after_new_files(caches.0, files, deployment_actions(outcomes)), caches.1)
            } else {
                (caches.0, cache_after_new_files(caches.1, files, deployment_actions(outcomes)))
            },
            Stage::Update => caches,
        },
    decreases files.len(),
{
    if files.len() > 0 {
        let f1 = files.drop_last();
        lemma_tasks_block(caches, f1, stage, kind, outcomes);
        assert(tagged(files, stage, kind).drop_last() =~= tagged(f1, stage, kind));
        assert(tagged(files, stage, kind).last() == TaskView { stage, kind, file: files.last() });
    }
}

/// The tasks of the deployment of wanted files `desired_*` over deployed
/// files `existing_*`, caches going under `cache_dir`.
pub open spec fn tasks_of(
    desired_symlinks: Seq<PairView>,
    desired_templates: Seq<PairView>,
    existing_symlinks: Seq<PairView>,
    existing_templates: Seq<PairView>,
    cache_dir: Seq<char>,
) -> Seq<TaskView> {
    planned_tasks(
        FileStateView {
            desired_symlinks: descriptions(desired_symlinks, cache_dir),
            desired_templates: descriptions(desired_templates, cache_dir),
            existing_symlinks: descriptions(existing_symlinks, cache_dir),
            existing_templates: descriptions(existing_templates, cache_dir),
        },
    )
}

/// A whole deployment brings both caches to the wanted files.  Dealing with
/// the tasks of a deployment in their planned order, where every removal and
/// every new file went through, the cache of symbolic links records exactly
/// the wanted symbolic links and the cache of templates exactly the wanted
/// templates.
#[verifier::rlimit(60)]
#[verifier::spinoff_prover]
pub proof fn lemma_tasks_reach_desired(
    desired_symlinks: Seq<PairView>,
    desired_templates: Seq<PairView>,
    existing_symlinks: Seq<PairView>,
    existing_templates: Seq<PairView>,
    cache_dir: Seq<char>,
    outcomes: Seq<TaskOutcome>,
)
    requires
        sources_sorted(desired_symlinks),
        sources_sorted(desired_templates),
        sources_sorted(existing_symlinks),
        sources_sorted(existing_templates),
        entries_normal(desired_symlinks),
        entries_normal(desired_templates),
        entries_normal(existing_symlinks),
        entries_normal(existing_templates),
        outcomes.len() == tasks_of(
            desired_symlinks,
            desired_templates,
            existing_symlinks,
            existing_templates,
            cache_dir,
        ).len(),
        forall|i: int|
            0 <= i < outcomes.len() ==> went_through(
                #[trigger] tasks_of(
                    desired_symlinks,
                    desired_templates,
                    existing_symlinks,
                    existing_templates,
                    cache_dir,
                )[i],
                outcomes[i],
            ),
    ensures
        caches_after_tasks(
            (files_map(existing_symlinks), files_map(existing_templates)),
            tasks_of(
                desired_symlinks,
                desired_templates,
                existing_symlinks,
                existing_templates,
                cache_dir,
            ),
            outcomes,
        ) == (files_map(desired_symlinks), files_map(desired_templates)),
{
    let tasks = tasks_of(
        desired_symlinks,
        desired_templates,
        existing_symlinks,
        existing_templates,
        cache_dir,
    );
    let ds = descriptions(desired_symlinks, cache_dir);
    let dt = descriptions(desired_templates, cache_dir);
    let es = descriptions(existing_symlinks, cache_dir);
    let et = descriptions(existing_templates, cache_dir);
    let fa = minus(es, ds);
    let fb = minus(et, dt);
    let fc = minus(ds, es);
    let fd = minus(dt, et);
    let fe = common(ds, es);
    let ff = common(dt, et);
    let a = tagged(fa, Stage::Delete, FileKind::Symlink);
    let b = tagged(fb, Stage::Delete, FileKind::Template);
    let c = tagged(fc, Stage::Create, FileKind::Symlink);
    let d = tagged(fd, Stage::Create, FileKind::Template);
    let e = tagged(fe, Stage::Update, FileKind::Symlink);
    let f = tagged(ff, Stage::Update, FileKind::Template);
    assert(tasks == a + b + c + d + e + f);
    let na = a.len() as int;
    let nb = na + b.len();
    let nc = nb + c.len();
    let nd = nc + d.len();
    let ne = nd + e.len();
    let c0 = (files_map(existing_symlinks), files_map(existing_templates));
    lemma_tasks_split(c0, a + b + c + d + e, f, outcomes);
    lemma_tasks_split(c0, a + b + c + d, e, outcomes);
    lemma_tasks_split(c0, a + b + c, d, outcomes);
    lemma_tasks_split(c0, a + b, c, outcomes);
    lemma_tasks_split(c0, a, b, outcomes);
    let c1 = caches_after_tasks(c0, a, outcomes);
    lemma_tasks_block(c0, fa, Stage::Delete, FileKind::Symlink, outcomes);
    let c2 = caches_after_tasks(c1, b, outcomes.skip(na));
    lemma_tasks_block(c1, fb, Stage::Delete, FileKind::Template, outcomes.skip(na));
    let c3 = caches_after_tasks(c2, c, outcomes.skip(nb));
    lemma_tasks_block(c2, fc, Stage::Create, FileKind::Symlink, outcomes.skip(nb));
    let c4 = caches_after_tasks(c3, d, outcomes.skip(nc));
    lemma_tasks_block(c3, fd, Stage::Create, FileKind::Template, outcomes.skip(nc));
    let c5 = caches_after_tasks(c4, e, outcomes.skip(nd));
    lemma_tasks_block(c4, fe, Stage::Update, FileKind::Symlink, outcomes.skip(nd));
    lemma_tasks_block(c5, ff, Stage::Update, FileKind::Template, outcomes.skip(ne));
    let x1 = deletion_actions(outcomes).take(na);
    let x2 = deletion_actions(outcomes.skip(na)).take(fb.len() as int);
    let x3 = deployment_actions(outcomes.skip(nb)).take(fc.len() as int);
    let x4 = deployment_actions(outcomes.skip(nc)).take(fd.len() as int);
    assert forall|i: int| 0 <= i < x1.len() implies #[trigger] x1[i]
        != DeleteAction::SkippedBecauseChanged by {
        assert(tasks[i] == a[i]);
        assert(went_through(tasks[i], outcomes[i]));
    }
    assert forall|i: int| 0 <= i < x2.len() implies #[trigger] x2[i]
        != DeleteAction::SkippedBecauseChanged by {
        assert(tasks[na + i] == b[i]);
        assert(went_through(tasks[na + i], outcomes[na + i]));
        assert(outcomes.skip(na)[i] == outcomes[na + i]);
    }
    assert forall|i: int| 0 <= i < x3.len() implies #[trigger] x3[i]
        != UpdateAction::SkippedBecauseChanged by {
        assert(tasks[nb + i] == c[i]);
        assert(went_through(tasks[nb + i], outcomes[nb + i]));
        assert(outcomes.skip(nb)[i] == outcomes[nb + i]);
    }
    assert forall|i: int| 0 <= i < x4.len() implies #[trigger] x4[i]
        != UpdateAction::SkippedBecauseChanged by {
        assert(tasks[nc + i] == d[i]);
        assert(went_through(tasks[nc + i], outcomes[nc + i]));
        assert(outcomes.skip(nc)[i] == outcomes[nc + i]);
    }
    lemma_deletions_prefix(files_map(existing_symlinks), fa, deletion_actions(outcomes), x1);
    lemma_deletions_prefix(
        files_map(existing_templates),
        fb,
        deletion_actions(outcomes.skip(na)),
        x2,
    );
    lemma_new_files_prefix(c2.0, fc, deployment_actions(outcomes.skip(nb)), x3);
    lemma_new_files_prefix(c3.1, fd, deployment_actions(outcomes.skip(nc)), x4);
    lemma_deploy_reaches_desired(existing_symlinks, desired_symlinks, cache_dir, x1, x3);
    lemma_deploy_reaches_desired(existing_templates, desired_templates, cache_dir, x2, x4);
}

} // verus!
