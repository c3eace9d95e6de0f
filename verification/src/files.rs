//! A map from source files to the places they are deployed at, kept in path
//! order of the sources.
use vstd::prelude::*;
use crate::path::{is_normal_path, normal_form, normalize_path, path_less, path_lt, lemma_path_lt_irreflexive, lemma_path_lt_transitive, lemma_path_lt_total};

verus! {

/// A source path and the target path it is deployed at.
pub type PairView = (Seq<char>, Seq<char>);

/// The sources of `s` come in strictly increasing path order.
pub open spec fn sources_sorted(s: Seq<PairView>) -> bool {
    forall|i: int, j: int|
        #![trigger s[i], s[j]]
        0 <= i < j < s.len() ==> path_lt(s[i].0, s[j].0)
}

/// Every source and target of `s` is in normal form.
pub open spec fn entries_normal(s: Seq<PairView>) -> bool {
    forall|i: int| #![trigger s[i]] 0 <= i < s.len() ==> is_normal_path(s[i].0) && is_normal_path(s[i].1)
}

/// Some entry of `s` has the source `k`.
pub open spec fn has_source(s: Seq<PairView>, k: Seq<char>) -> bool {
    exists|i: int| 0 <= i < s.len() && #[trigger] s[i].0 == k
}

/// The map from sources to targets that the entries `s` describe.
pub open spec fn files_map(s: Seq<PairView>) -> Map<Seq<char>, Seq<char>> {
    Map::new(
        |k: Seq<char>| has_source(s, k),
        |k: Seq<char>| s[choose|i: int| 0 <= i < s.len() && #[trigger] s[i].0 == k].1,
    )
}

/// In sorted entries, the entry at `i` is what the map holds for its source.
pub proof fn lemma_files_map_entry(s: Seq<PairView>, i: int)
    requires
        sources_sorted(s),
        0 <= i < s.len(),
    ensures
        files_map(s).contains_key(s[i].0),
        files_map(s)[s[i].0] == s[i].1,
{
    assert(has_source(s, s[i].0));
    let j = choose|j: int| 0 <= j < s.len() && #[trigger] s[j].0 == s[i].0;
    if j != i {
        lemma_path_lt_irreflexive(s[i].0);
        if j < i {
            assert(path_lt(s[j].0, s[i].0));
        } else {
            assert(path_lt(s[i].0, s[j].0));
        }
    }
}

/// The elements of `s` whose flag in `flags` (at the same index) is `want`,
/// in the order of `s`.
pub open spec fn select<A>(s: Seq<A>, flags: Seq<bool>, want: bool) -> Seq<A>
    decreases s.len(),
{
    if s.len() == 0 {
        Seq::empty()
    } else {
        let rest = select(s.drop_last(), flags, want);
        if flags[s.len() - 1] == want {
            rest.push(s.last())
        } else {
            rest
        }
    }
}

/// Selecting from sorted entries keeps them sorted, and selects only entries
/// that were there.
pub proof fn lemma_select_sorted(s: Seq<PairView>, flags: Seq<bool>, want: bool)
    requires
        sources_sorted(s),
    ensures
        sources_sorted(select(s, flags, want)),
        forall|x: PairView| #[trigger] select(s, flags, want).contains(x) ==> s.contains(x),
    decreases s.len(),
{
    if s.len() > 0 {
        let d = s.drop_last();
        assert(sources_sorted(d)) by {
            assert forall|i: int, j: int| 0 <= i < j < d.len() implies path_lt(
                #[trigger] d[i].0,
                #[trigger] d[j].0,
            ) by {
                assert(path_lt(s[i].0, s[j].0));
            }
        }
        lemma_select_sorted(d, flags, want);
        let rest = select(d, flags, want);
        if flags[s.len() - 1] == want {
            let r = rest.push(s.last());
            assert forall|i: int, j: int| 0 <= i < j < r.len() implies path_lt(
                #[trigger] r[i].0,
                #[trigger] r[j].0,
            ) by {
                if j < rest.len() {
                    assert(path_lt(rest[i].0, rest[j].0));
                } else {
                    assert(rest.contains(rest[i]));
                    assert(d.contains(rest[i]));
                    let p = choose|p: int| 0 <= p < d.len() && d[p] == rest[i];
                    assert(path_lt(s[p].0, s[s.len() - 1].0));
                }
            }
            assert forall|x: PairView| #[trigger] r.contains(x) implies s.contains(x) by {
                let q = choose|q: int| 0 <= q < r.len() && r[q] == x;
                if q < rest.len() {
                    assert(rest.contains(x));
                    let p = choose|p: int| 0 <= p < d.len() && d[p] == x;
                    assert(s[p] == x);
                } else {
                    assert(s[s.len() - 1] == x);
                }
            }
        } else {
            assert forall|x: PairView| #[trigger] rest.contains(x) implies s.contains(x) by {
                let p = choose|p: int| 0 <= p < d.len() && d[p] == x;
                assert(s[p] == x);
            }
        }
    }
}

/// Source files and where each of them goes, at most one target per source.
pub struct Files {
    entries: Vec<(String, String)>,
}

/// The views of source/target entries.
pub open spec fn pairs_view(v: Seq<(String, String)>) -> Seq<PairView> {
    v.map_values(|e: (String, String)| (e.0@, e.1@))
}

impl View for Files {
    type V = Seq<PairView>;

    closed spec fn view(&self) -> Seq<PairView> {
        pairs_view(self.entries@)
    }
}

impl Files {
    /// The entries stay sorted by source, which also keeps sources
    /// distinct, and every path is in normal form.
    #[verifier::type_invariant]
    spec fn well_formed(&self) -> bool {
        sources_sorted(self@) && entries_normal(self@)
    }

    /// The map that the entries describe.
    pub open spec fn as_map(&self) -> Map<Seq<char>, Seq<char>> {
        files_map(self@)
    }

    /// An empty map.
    pub fn new() -> (r: Files)
        ensures
            r@ == Seq::<PairView>::empty(),
    {
        let r = Files { entries: Vec::new() };
        assert(r@ =~= Seq::<PairView>::empty());
        r
    }

    /// A copy of the map, with the same entries.
    pub fn copy(&self) -> (r: Files)
        ensures
            r@ == self@,
    {
        proof {
            use_type_invariant(self);
        }
        let n = self.entries.len();
        let mut entries: Vec<(String, String)> = Vec::new();
        for i in 0..n
            invariant
                n == self.entries@.len(),
                pairs_view(entries@) == self@.take(i as int),
        {
            let ghost before = pairs_view(entries@);
            let e = &self.entries[i];
            let pair = (e.0.clone(), e.1.clone());
            assert((pair.0@, pair.1@) == self@[i as int]);
            entries.push(pair);
            assert(pairs_view(entries@) =~= before.push(self@[i as int]));
            assert(pairs_view(entries@) =~= self@.take(i + 1));
        }
        assert(self@.take(n as int) =~= self@);
        Files { entries }
    }

    /// The number of entries.
    pub fn len(&self) -> (r: usize)
        ensures
            r == self@.len(),
    {
        self.entries.len()
    }

    /// The entry at index `i`, in path order of the sources.
    pub fn entry(&self, i: usize) -> (r: (&String, &String))
        requires
            i < self@.len(),
        ensures
            r.0@ == self@[i as int].0,
            r.1@ == self@[i as int].1,
    {
        let e = &self.entries[i];
        (&e.0, &e.1)
    }

    /// The entries, in path order of their sources.
    pub fn into_entries(self) -> (r: Vec<(String, String)>)
        ensures
            pairs_view(r@) == self@,
            sources_sorted(self@),
            entries_normal(self@),
    {
        proof {
            use_type_invariant(&self);
        }
        self.entries
    }

    /// Sets the target of `source` to `target`, both taken in normal form
    /// (so that texts naming the same path by its components are one key),
    /// and gives back the target it had before, if any.
    pub fn insert(&mut self, source: String, target: String) -> (previous: Option<String>)
        ensures
            final(self).as_map() == old(self).as_map().insert(
                normal_form(source@),
                normal_form(target@),
            ),
            previous is Some <==> old(self).as_map().contains_key(normal_form(source@)),
            previous matches Some(p) ==> p@ == old(self).as_map()[normal_form(source@)],
    {
        proof {
            use_type_invariant(&*self);
        }
        let source = normalize_path(source.as_str());
        let target = normalize_path(target.as_str());
        let ghost old_view = self@;
        let n = self.entries.len();
        let mut k: usize = 0;
        while k < n && path_less(self.entries[k].0.as_str(), source.as_str())
            invariant
                n == self.entries@.len(),
                self@ == old_view,
                sources_sorted(old_view),
                entries_normal(old_view),
                k <= n,
                forall|i: int| 0 <= i < k ==> path_lt(#[trigger] old_view[i].0, source@),
            decreases n - k,
        {
            k = k + 1;
        }
        let mut entries = Vec::new();
        std::mem::swap(&mut entries, &mut self.entries);
        assert(pairs_view(entries@) == old_view);
        if k < n && entries[k].0 == source {
            let previous = entries[k].1.clone();
            entries.set(k, (source, target));
            let ghost new_view = pairs_view(entries@);
            proof {
                assert(new_view =~= old_view.update(k as int, (source@, target@)));
                assert(entries_normal(new_view));
                assert(sources_sorted(new_view)) by {
                    assert forall|i: int, j: int| 0 <= i < j < new_view.len() implies path_lt(
                        #[trigger] new_view[i].0,
                        #[trigger] new_view[j].0,
                    ) by {
                        assert(path_lt(old_view[i].0, old_view[j].0));
                    }
                }
                lemma_files_map_entry(old_view, k as int);
                assert(files_map(new_view) =~= files_map(old_view).insert(source@, target@)) by {
                    assert forall|key: Seq<char>| #[trigger]
                        files_map(new_view).contains_key(key) <==> files_map(
                            old_view,
                        ).insert(source@, target@).contains_key(key) by {
                        if has_source(new_view, key) {
                            let i = choose|i: int| 0 <= i < new_view.len() && #[trigger] new_view[i].0 == key;
                            assert(old_view[i].0 == key);
                        }
                        if has_source(old_view, key) {
                            let i = choose|i: int| 0 <= i < old_view.len() && #[trigger] old_view[i].0 == key;
                            assert(new_view[i].0 == key);
                        }
                    }
                    assert forall|key: Seq<char>| #[trigger]
                        files_map(new_view).contains_key(key) implies files_map(new_view)[key]
                        == files_map(old_view).insert(source@, target@)[key] by {
                        let i = choose|i: int| 0 <= i < new_view.len() && #[trigger] new_view[i].0 == key;
                        lemma_files_map_entry(new_view, i);
                        lemma_files_map_entry(old_view, i);
                    }
                }
            }
            self.entries = entries;
            Some(previous)
        } else {
            entries.insert(k, (source, target));
            let ghost new_view = pairs_view(entries@);
            proof {
                assert(new_view =~= old_view.insert(k as int, (source@, target@)));
                assert(entries_normal(new_view)) by {
                    assert forall|i: int| 0 <= i < new_view.len() implies is_normal_path(
                        #[trigger] new_view[i].0,
                    ) && is_normal_path(new_view[i].1) by {
                        if i < k {
                            assert(new_view[i] == old_view[i]);
                            assert(is_normal_path(old_view[i].0));
                        } else if i > k {
                            assert(new_view[i] == old_view[i - 1]);
                            assert(is_normal_path(old_view[i - 1].0));
                        }
                    }
                }
                if k < n {
                    lemma_path_lt_total(old_view[k as int].0, source@);
                }
                assert(forall|i: int| k <= i < n ==> path_lt(source@, #[trigger] old_view[i].0)) by {
                    assert forall|i: int| k <= i < n implies path_lt(source@, #[trigger] old_view[i].0) by {
                        if i > k {
                            assert(path_lt(old_view[k as int].0, old_view[i].0));
                            lemma_path_lt_transitive(source@, old_view[k as int].0, old_view[i].0);
                        }
                    }
                }
                assert(sources_sorted(new_view)) by {
                    assert forall|i: int, j: int| 0 <= i < j < new_view.len() implies path_lt(
                        #[trigger] new_view[i].0,
                        #[trigger] new_view[j].0,
                    ) by {
                        if j < k {
                            assert(path_lt(old_view[i].0, old_view[j].0));
                        } else if j == k {
                        } else if i < k {
                            lemma_path_lt_transitive(old_view[i].0, source@, old_view[j - 1].0);
                        } else if i == k {
                        } else {
                            assert(path_lt(old_view[i - 1].0, old_view[j - 1].0));
                        }
                    }
                }
                assert(!has_source(old_view, source@)) by {
                    if has_source(old_view, source@) {
                        let i = choose|i: int| 0 <= i < old_view.len() && #[trigger] old_view[i].0 == source@;
                        lemma_path_lt_irreflexive(source@);
                    }
                }
                assert(files_map(new_view) =~= files_map(old_view).insert(source@, target@)) by {
                    assert forall|key: Seq<char>| #[trigger]
                        files_map(new_view).contains_key(key) <==> files_map(
                            old_view,
                        ).insert(source@, target@).contains_key(key) by {
                        if has_source(new_view, key) {
                            let i = choose|i: int| 0 <= i < new_view.len() && #[trigger] new_view[i].0 == key;
                            if i < k {
                                assert(old_view[i].0 == key);
                            } else if i > k {
                                assert(old_view[i - 1].0 == key);
                            }
                        }
                        if has_source(old_view, key) {
                            let i = choose|i: int| 0 <= i < old_view.len() && #[trigger] old_view[i].0 == key;
                            if i < k {
                                assert(new_view[i].0 == key);
                            } else {
                                assert(new_view[i + 1].0 == key);
                            }
                        }
                        if key == source@ {
                            assert(new_view[k as int].0 == key);
                        }
                    }
                    assert forall|key: Seq<char>| #[trigger]
                        files_map(new_view).contains_key(key) implies files_map(new_view)[key]
                        == files_map(old_view).insert(source@, target@)[key] by {
                        let i = choose|i: int| 0 <= i < new_view.len() && #[trigger] new_view[i].0 == key;
                        lemma_files_map_entry(new_view, i);
                        if i < k {
                            lemma_files_map_entry(old_view, i);
                        } else if i > k {
                            lemma_files_map_entry(old_view, i - 1);
                        }
                    }
                }
            }
            self.entries = entries;
            None
        }
    }

    /// Takes `source` (in normal form) out of the map, and gives back the
    /// target it had, if any.
    pub fn remove(&mut self, source: &String) -> (previous: Option<String>)
        ensures
            final(self).as_map() == old(self).as_map().remove(normal_form(source@)),
            previous is Some <==> old(self).as_map().contains_key(normal_form(source@)),
            previous matches Some(p) ==> p@ == old(self).as_map()[normal_form(source@)],
    {
        proof {
            use_type_invariant(&*self);
        }
        let wanted = normalize_path(source.as_str());
        let ghost old_view = self@;
        let n = self.entries.len();
        let mut k: usize = 0;
        while k < n && self.entries[k].0 != wanted
            invariant
                n == self.entries@.len(),
                self@ == old_view,
                entries_normal(old_view),
                k <= n,
                forall|i: int| 0 <= i < k ==> #[trigger] old_view[i].0 != wanted@,
            decreases n - k,
        {
            k = k + 1;
        }
        if k == n {
            proof {
                assert(!has_source(old_view, wanted@));
                assert(files_map(old_view) =~= files_map(old_view).remove(wanted@));
            }
            return None;
        }
        let mut entries = Vec::new();
        std::mem::swap(&mut entries, &mut self.entries);
        assert(pairs_view(entries@) == old_view);
        let (_, previous) = entries.remove(k);
        let ghost new_view = pairs_view(entries@);
        proof {
            assert(new_view =~= old_view.remove(k as int));
            assert(entries_normal(new_view)) by {
                assert forall|i: int| 0 <= i < new_view.len() implies is_normal_path(
                    #[trigger] new_view[i].0,
                ) && is_normal_path(new_view[i].1) by {
                    if i < k {
                        assert(new_view[i] == old_view[i]);
                        assert(is_normal_path(old_view[i].0));
                    } else {
                        assert(new_view[i] == old_view[i + 1]);
                        assert(is_normal_path(old_view[i + 1].0));
                    }
                }
            }
            lemma_files_map_entry(old_view, k as int);
            assert(sources_sorted(new_view)) by {
                assert forall|i: int, j: int| 0 <= i < j < new_view.len() implies path_lt(
                    #[trigger] new_view[i].0,
                    #[trigger] new_view[j].0,
                ) by {
                    if j < k {
                        assert(path_lt(old_view[i].0, old_view[j].0));
                    } else if i < k {
                        assert(path_lt(old_view[i].0, old_view[j + 1].0));
                    } else {
                        assert(path_lt(old_view[i + 1].0, old_view[j + 1].0));
                    }
                }
            }
            assert(files_map(new_view) =~= files_map(old_view).remove(wanted@)) by {
                assert forall|key: Seq<char>| #[trigger]
                    files_map(new_view).contains_key(key) <==> files_map(
                        old_view,
                    ).remove(wanted@).contains_key(key) by {
                    if has_source(new_view, key) {
                        let i = choose|i: int| 0 <= i < new_view.len() && #[trigger] new_view[i].0 == key;
                        if i < k {
                            assert(old_view[i].0 == key);
                            assert(path_lt(old_view[i].0, old_view[k as int].0));
                            lemma_path_lt_irreflexive(key);
                        } else {
                            assert(old_view[i + 1].0 == key);
                            assert(path_lt(old_view[k as int].0, old_view[i + 1].0));
                            lemma_path_lt_irreflexive(key);
                        }
                    }
                    if has_source(old_view, key) && key != wanted@ {
                        let i = choose|i: int| 0 <= i < old_view.len() && #[trigger] old_view[i].0 == key;
                        if i < k {
                            assert(new_view[i].0 == key);
                        } else {
                            assert(new_view[i - 1].0 == key);
                        }
                    }
                }
                assert forall|key: Seq<char>| #[trigger]
                    files_map(new_view).contains_key(key) implies files_map(new_view)[key]
                    == files_map(old_view).remove(wanted@)[key] by {
                    let i = choose|i: int| 0 <= i < new_view.len() && #[trigger] new_view[i].0 == key;
                    lemma_files_map_entry(new_view, i);
                    if i < k {
                        lemma_files_map_entry(old_view, i);
                    } else {
                        lemma_files_map_entry(old_view, i + 1);
                    }
                }
            }
        }
        self.entries = entries;
        Some(previous)
    }

    /// Splits the entries in two, keeping their order: those whose flag (at
    /// the same index) is set, and the others.
    pub fn split_by(self, flags: &Vec<bool>) -> (r: (Files, Files))
        requires
            flags@.len() == self@.len(),
        ensures
            r.0@ == select(self@, flags@, true),
            r.1@ == select(self@, flags@, false),
    {
        let ghost s = self@;
        let entries = self.into_entries();
        let n = entries.len();
        let mut chosen: Vec<(String, String)> = Vec::new();
        let mut others: Vec<(String, String)> = Vec::new();
        for i in 0..n
            invariant
                n == entries@.len(),
                n == flags@.len(),
                pairs_view(entries@) == s,
                entries_normal(s),
                pairs_view(chosen@) == select(s.take(i as int), flags@, true),
                pairs_view(others@) == select(s.take(i as int), flags@, false),
        {
            let e = &entries[i];
            let copy = (e.0.clone(), e.1.clone());
            assert(s.take(i + 1).drop_last() =~= s.take(i as int));
            if flags[i] {
                chosen.push(copy);
            } else {
                others.push(copy);
            }
            assert(pairs_view(chosen@) =~= select(s.take(i + 1), flags@, true));
            assert(pairs_view(others@) =~= select(s.take(i + 1), flags@, false));
        }
        proof {
            assert(s.take(n as int) =~= s);
            lemma_select_sorted(s, flags@, true);
            lemma_select_sorted(s, flags@, false);
            let yes = select(s, flags@, true);
            let no = select(s, flags@, false);
            assert forall|i: int| 0 <= i < yes.len() implies is_normal_path(#[trigger] yes[i].0)
                && is_normal_path(yes[i].1) by {
                assert(yes.contains(yes[i]));
                assert(s.contains(yes[i]));
                assert(entries_normal(s));
                let j = choose|j: int| 0 <= j < s.len() && s[j] == yes[i];
                assert(is_normal_path(s[j].0) && is_normal_path(s[j].1));
            }
            assert forall|i: int| 0 <= i < no.len() implies is_normal_path(#[trigger] no[i].0)
                && is_normal_path(no[i].1) by {
                assert(no.contains(no[i]));
                assert(s.contains(no[i]));
                assert(entries_normal(s));
                let j = choose|j: int| 0 <= j < s.len() && s[j] == no[i];
                assert(is_normal_path(s[j].0) && is_normal_path(s[j].1));
            }
        }
        (Files { entries: chosen }, Files { entries: others })
    }
}

} // verus!
