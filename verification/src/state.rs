//! Which deployed files are new, which are kept and which are gone.
use vstd::prelude::*;
use crate::files::{Files, PairView, pairs_view};
use crate::path::{joined_path, join_path, path_lt};

verus! {

broadcast use vstd::seq_lib::group_seq_properties, vstd::seq_lib::group_filter_ensures;

/// A deployed file: where it comes from, where it goes, and where its
/// rendered copy is cached.
#[derive(Debug, PartialEq, Eq)]
pub struct FileDescription {
    pub source: String,
    pub target: String,
    pub cache: String,
}

/// The paths of a [`FileDescription`].
pub struct DescriptionView {
    pub source: Seq<char>,
    pub target: Seq<char>,
    pub cache: Seq<char>,
}

impl View for FileDescription {
    type V = DescriptionView;

    open spec fn view(&self) -> DescriptionView {
        DescriptionView { source: self.source@, target: self.target@, cache: self.cache@ }
    }
}

impl FileDescription {
    /// A copy of the description.
    pub fn copy(&self) -> (r: FileDescription)
        ensures
            r@ == self@,
    {
        FileDescription {
            source: self.source.clone(),
            target: self.target.clone(),
            cache: self.cache.clone(),
        }
    }

    /// Whether two descriptions name the same three paths.
    pub fn same_as(&self, other: &FileDescription) -> (r: bool)
        ensures
            r == (self@ == other@),
    {
        self.source == other.source && self.target == other.target && self.cache == other.cache
    }
}

/// The views of a sequence of descriptions.
pub open spec fn descriptions_view(v: Seq<FileDescription>) -> Seq<DescriptionView> {
    v.map_values(|d: FileDescription| d@)
}

/// The descriptions of source/target entries, with caches under `cache_dir`.
pub open spec fn descriptions(files: Seq<PairView>, cache_dir: Seq<char>) -> Seq<DescriptionView> {
    files.map_values(
        |p: PairView| DescriptionView { source: p.0, target: p.1, cache: joined_path(cache_dir, p.0) },
    )
}

/// The sources of `s` come in strictly increasing path order.
pub open spec fn descriptions_sorted(s: Seq<DescriptionView>) -> bool {
    forall|i: int, j: int|
        #![trigger s[i], s[j]]
        0 <= i < j < s.len() ==> path_lt(s[i].source, s[j].source)
}

/// The descriptions of `a` that are not in `b`, in the order of `a`.
pub open spec fn minus(a: Seq<DescriptionView>, b: Seq<DescriptionView>) -> Seq<DescriptionView> {
    a.filter(|d: DescriptionView| !b.contains(d))
}

/// The descriptions of `a` that are also in `b`, in the order of `a`.
pub open spec fn common(a: Seq<DescriptionView>, b: Seq<DescriptionView>) -> Seq<DescriptionView> {
    a.filter(|d: DescriptionView| b.contains(d))
}

/// The files that are wanted and the files that the cache says are deployed,
/// each kind (symbolic links, templates) apart.
pub struct FileState {
    desired_symlinks: Vec<FileDescription>,
    desired_templates: Vec<FileDescription>,
    existing_symlinks: Vec<FileDescription>,
    existing_templates: Vec<FileDescription>,
}

/// The four lists of a [`FileState`].
pub struct FileStateView {
    pub desired_symlinks: Seq<DescriptionView>,
    pub desired_templates: Seq<DescriptionView>,
    pub existing_symlinks: Seq<DescriptionView>,
    pub existing_templates: Seq<DescriptionView>,
}

impl View for FileState {
    type V = FileStateView;

    closed spec fn view(&self) -> FileStateView {
        FileStateView {
            desired_symlinks: descriptions_view(self.desired_symlinks@),
            desired_templates: descriptions_view(self.desired_templates@),
            existing_symlinks: descriptions_view(self.existing_symlinks@),
            existing_templates: descriptions_view(self.existing_templates@),
        }
    }
}

/// Whether the descriptions `v` hold one equal to `d`.
fn holds(v: &Vec<FileDescription>, d: &FileDescription) -> (r: bool)
    ensures
        r == descriptions_view(v@).contains(d@),
{
    let ghost vs = descriptions_view(v@);
    let n = v.len();
    let mut i: usize = 0;
    while i < n
        invariant
            n == v@.len(),
            vs == descriptions_view(v@),
            i <= n,
            forall|j: int| 0 <= j < i ==> #[trigger] vs[j] != d@,
        decreases n - i,
    {
        if v[i].same_as(d) {
            assert(vs[i as int] == d@);
            return true;
        }
        i = i + 1;
    }
    false
}

/// The descriptions of `a` that are (`keep_common`) or are not (otherwise)
/// in `b`, in the order of `a`.
fn select_against(a: &Vec<FileDescription>, b: &Vec<FileDescription>, keep_common: bool) -> (r: Vec<
    FileDescription,
>)
    requires
        descriptions_sorted(descriptions_view(a@)),
    ensures
        keep_common ==> descriptions_view(r@) == common(
            descriptions_view(a@),
            descriptions_view(b@),
        ),
        !keep_common ==> descriptions_view(r@) == minus(
            descriptions_view(a@),
            descriptions_view(b@),
        ),
        descriptions_sorted(descriptions_view(r@)),
{
    let ghost av = descriptions_view(a@);
    let ghost bv = descriptions_view(b@);
    let ghost pred = if keep_common {
        |d: DescriptionView| bv.contains(d)
    } else {
        |d: DescriptionView| !bv.contains(d)
    };
    let mut r: Vec<FileDescription> = Vec::new();
    let n = a.len();
    for i in 0..n
        invariant
            n == a@.len(),
            av == descriptions_view(a@),
            bv == descriptions_view(b@),
            descriptions_sorted(av),
            pred == (if keep_common {
                |d: DescriptionView| bv.contains(d)
            } else {
                |d: DescriptionView| !bv.contains(d)
            }),
            descriptions_view(r@) == av.take(i as int).filter(pred),
            descriptions_sorted(descriptions_view(r@)),
            forall|j: int|
                0 <= j < r@.len() ==> av.take(i as int).contains(
                    #[trigger] descriptions_view(r@)[j],
                ),
    {
        let ghost before = descriptions_view(r@);
        let inside = holds(b, &a[i]);
        proof {
            assert(av.take(i + 1) =~= av.take(i as int).push(av[i as int]));
            av.take(i as int).lemma_filter_push(av[i as int], pred);
        }
        if inside == keep_common {
            r.push(a[i].copy());
            let ghost after = descriptions_view(r@);
            assert(after =~= before.push(av[i as int]));
            assert forall|j: int, k: int| 0 <= j < k < after.len() implies path_lt(
                #[trigger] after[j].source,
                #[trigger] after[k].source,
            ) by {
                if k < before.len() {
                    assert(path_lt(before[j].source, before[k].source));
                } else {
                    assert(av.take(i as int).contains(before[j]));
                    let p = choose|p: int| 0 <= p < i && #[trigger] av.take(i as int)[p] == before[j];
                    assert(path_lt(av[p].source, av[i as int].source));
                }
            }
            assert forall|j: int| 0 <= j < after.len() implies av.take(i + 1).contains(
                #[trigger] after[j],
            ) by {
                if j < before.len() {
                    assert(av.take(i as int).contains(before[j]));
                    let p = choose|p: int| 0 <= p < i && #[trigger] av.take(i as int)[p] == before[j];
                    assert(av.take(i + 1)[p] == after[j]);
                } else {
                    assert(av.take(i + 1)[i as int] == after[j]);
                }
            }
        } else {
            assert forall|j: int| 0 <= j < before.len() implies av.take(i + 1).contains(
                #[trigger] before[j],
            ) by {
                assert(av.take(i as int).contains(before[j]));
                let p = choose|p: int| 0 <= p < i && #[trigger] av.take(i as int)[p] == before[j];
                assert(av.take(i + 1)[p] == before[j]);
            }
        }
    }
    assert(av.take(n as int) =~= av);
    r
}

impl FileState {
    /// Every list is sorted by source in path order.
    #[verifier::type_invariant]
    spec fn well_formed(&self) -> bool {
        &&& descriptions_sorted(self@.desired_symlinks)
        &&& descriptions_sorted(self@.desired_templates)
        &&& descriptions_sorted(self@.existing_symlinks)
        &&& descriptions_sorted(self@.existing_templates)
    }

    /// The state of the wanted and the deployed files, each source's cache
    /// being that source joined onto `cache_dir`.
    pub fn new(
        desired_symlinks: Files,
        desired_templates: Files,
        existing_symlinks: Files,
        existing_templates: Files,
        cache_dir: String,
    ) -> (r: FileState)
        ensures
            r@.desired_symlinks == descriptions(desired_symlinks@, cache_dir@),
            r@.desired_templates == descriptions(desired_templates@, cache_dir@),
            r@.existing_symlinks == descriptions(existing_symlinks@, cache_dir@),
            r@.existing_templates == descriptions(existing_templates@, cache_dir@),
    {
        FileState {
            desired_symlinks: Self::files_to_set(desired_symlinks, &cache_dir),
            desired_templates: Self::files_to_set(desired_templates, &cache_dir),
            existing_symlinks: Self::files_to_set(existing_symlinks, &cache_dir),
            existing_templates: Self::files_to_set(existing_templates, &cache_dir),
        }
    }

    /// The descriptions of `files`, in path order of their sources, each
    /// source's cache being that source joined onto `cache_dir`.
    pub fn files_to_set(files: Files, cache_dir: &String) -> (r: Vec<FileDescription>)
        ensures
            descriptions_view(r@) == descriptions(files@, cache_dir@),
            descriptions_sorted(descriptions_view(r@)),
    {
        let ghost s = files@;
        let entries = files.into_entries();
        let n = entries.len();
        let mut r: Vec<FileDescription> = Vec::new();
        for i in 0..n
            invariant
                n == entries@.len(),
                pairs_view(entries@) == s,
                descriptions_view(r@) == descriptions(s.take(i as int), cache_dir@),
        {
            let ghost before = descriptions_view(r@);
            let e = &entries[i];
            let cache = join_path(cache_dir.as_str(), e.0.as_str());
            let d = FileDescription { source: e.0.clone(), target: e.1.clone(), cache };
            assert(d@ == descriptions(s, cache_dir@)[i as int]);
            r.push(d);
            assert(descriptions_view(r@) =~= before.push(d@));
            assert(descriptions_view(r@) =~= descriptions(s.take(i + 1), cache_dir@));
        }
        assert(s.take(n as int) =~= s);
        assert(descriptions_sorted(descriptions_view(r@))) by {
            let rv = descriptions_view(r@);
            assert forall|i: int, j: int| 0 <= i < j < rv.len() implies path_lt(
                #[trigger] rv[i].source,
                #[trigger] rv[j].source,
            ) by {
                assert(path_lt(s[i].0, s[j].0));
            }
        }
        r
    }

    /// The files deployed before but not wanted any more: symbolic links,
    /// then templates, each in path order of the sources.
    pub fn deleted_files(&self) -> (r: (Vec<FileDescription>, Vec<FileDescription>))
        ensures
            descriptions_view(r.0@) == minus(self@.existing_symlinks, self@.desired_symlinks),
            descriptions_view(r.1@) == minus(self@.existing_templates, self@.desired_templates),
            descriptions_sorted(descriptions_view(r.0@)),
            descriptions_sorted(descriptions_view(r.1@)),
    {
        proof {
            use_type_invariant(self);
        }
        (
            select_against(&self.existing_symlinks, &self.desired_symlinks, false),
            select_against(&self.existing_templates, &self.desired_templates, false),
        )
    }

    /// The files wanted but not deployed before: symbolic links, then
    /// templates, each in path order of the sources.
    pub fn new_files(&self) -> (r: (Vec<FileDescription>, Vec<FileDescription>))
        ensures
            descriptions_view(r.0@) == minus(self@.desired_symlinks, self@.existing_symlinks),
            descriptions_view(r.1@) == minus(self@.desired_templates, self@.existing_templates),
            descriptions_sorted(descriptions_view(r.0@)),
            descriptions_sorted(descriptions_view(r.1@)),
    {
        proof {
            use_type_invariant(self);
        }
        (
            select_against(&self.desired_symlinks, &self.existing_symlinks, false),
            select_against(&self.desired_templates, &self.existing_templates, false),
        )
    }

    /// The files wanted and deployed before, unchanged: symbolic links, then
    /// templates, each in path order of the sources.
    pub fn old_files(&self) -> (r: (Vec<FileDescription>, Vec<FileDescription>))
        ensures
            descriptions_view(r.0@) == common(self@.desired_symlinks, self@.existing_symlinks),
            descriptions_view(r.1@) == common(self@.desired_templates, self@.existing_templates),
            descriptions_sorted(descriptions_view(r.0@)),
            descriptions_sorted(descriptions_view(r.1@)),
    {
        proof {
            use_type_invariant(self);
        }
        (
            select_against(&self.desired_symlinks, &self.existing_symlinks, true),
            select_against(&self.desired_templates, &self.existing_templates, true),
        )
    }
}

} // verus!
