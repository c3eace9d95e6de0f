//! The decisions of a deployment: which files are symbolic links and which
//! are templates, what to do on disk for each file, and what the cache
//! records once it is done.
use vstd::prelude::*;
use crate::files::{Files, PairView, select};
use crate::path::normal_form;
use crate::state::{DescriptionView, FileDescription};

verus! {

/// The text holds the start of a template expression, `{{`.
pub open spec fn has_template_marker(text: Seq<char>) -> bool {
    exists|i: int| 0 <= i && i + 1 < text.len() && #[trigger] text[i] == '{' && text[i + 1] == '{'
}

/// Whether a source file is rendered as a template: `content` is its text,
/// or `None` where it could not be read as UTF-8 text.
pub fn is_template(content: Option<&str>) -> (r: bool)
    ensures
        r == match content {
            Some(text) => has_template_marker(text@),
            None => false,
        },
{
    match content {
        None => false,
        Some(text) => {
            let mut previous_brace = false;
            let mut found = false;
            let ghost chars = text@;
            for c in it: text.chars()
                invariant
                    it.seq() == chars,
                    previous_brace == (it.index() > 0 && chars[it.index() - 1] == '{'),
                    found == has_template_marker(chars.take(it.index() as int)),
            {
                let ghost k = it.index() as int;
                let ghost seen = chars.take(k);
                let ghost next = chars.take(k + 1);
                proof {
                    assert(c == chars[k]);
                    assert(next =~= seen.push(c));
                    if has_template_marker(seen) {
                        let w = choose|w: int| 0 <= w && w + 1 < seen.len() && #[trigger] seen[w] == '{' && seen[w + 1] == '{';
                        assert(next[w] == '{' && next[w + 1] == '{');
                    }
                    if has_template_marker(next) && !has_template_marker(seen) {
                        let w = choose|w: int| 0 <= w && w + 1 < next.len() && #[trigger] next[w] == '{' && next[w + 1] == '{';
                        if w + 1 < seen.len() {
                            assert(seen[w] == '{' && seen[w + 1] == '{');
                        }
                        assert(w == k - 1);
                    }
                    if k > 0 && chars[k - 1] == '{' && c == '{' {
                        assert(next[k - 1] == '{' && next[k] == '{');
                    }
                }
                if c == '{' {
                    if previous_brace {
                        found = true;
                    }
                    previous_brace = true;
                } else {
                    previous_brace = false;
                }
            }
            assert(chars.take(chars.len() as int) =~= chars);
            found
        }
    }
}

/// Which kind each file is deployed as: `true` for a symbolic link, which is
/// what a file is where links can be made and it is no template.
pub open spec fn link_flags(symlinks_enabled: bool, templates: Seq<bool>) -> Seq<bool> {
    Seq::new(templates.len(), |i: int| symlinks_enabled && !templates[i])
}

/// Splits the wanted files into those deployed as symbolic links and those
/// deployed as templates, keeping their order.  `templates` tells, for each
/// file at the same index, whether it is a template; it is not looked at
/// where symbolic links cannot be made, and every file is then a template.
pub fn split_files(files: Files, symlinks_enabled: bool, templates: &Vec<bool>) -> (r: (
    Files,
    Files,
))
    requires
        templates@.len() == files@.len(),
    ensures
        r.0@ == select(files@, link_flags(symlinks_enabled, templates@), true),
        r.1@ == select(files@, link_flags(symlinks_enabled, templates@), false),
{
    let n = templates.len();
    let mut flags: Vec<bool> = Vec::new();
    for i in 0..n
        invariant
            n == templates@.len(),
            flags@ =~= link_flags(symlinks_enabled, templates@).take(i as int),
    {
        flags.push(symlinks_enabled && !templates[i]);
    }
    assert(flags@ =~= link_flags(symlinks_enabled, templates@));
    files.split_by(&flags)
}

/// What a file on disk looks like next to what was deployed there.
#[derive(Clone, Copy, Debug, PartialEq, Eq, Structural)]
pub enum FileCompareState {
    /// It is what was deployed.
    Equal,
    /// It was changed since.
    Changed,
    /// It is not there.
    Missing,
}

/// What came of removing a deployed file.
#[derive(Clone, Copy, Debug, PartialEq, Eq, Structural)]
pub enum DeleteAction {
    Deleted,
    SkippedBecauseChanged,
    DeletedBecauseMissing,
}

/// What came of deploying a file.
#[derive(Clone, Copy, Debug, PartialEq, Eq, Structural)]
pub enum UpdateAction {
    Updated,
    SkippedBecauseChanged,
    UpdatedBecauseMissing,
}

/// One operation on the file system.
#[derive(Debug, PartialEq, Eq)]
pub enum FsStep {
    /// Remove the file at `path`.
    RemoveFile { path: String },
    /// Remove the parent directories of `path` that are left empty;
    /// `target_side` is set for a deployed file, unset for a cached copy.
    DeleteParents { path: String, target_side: bool },
    /// Make a symbolic link at `link` that points at `original`.
    MakeSymlink { link: String, original: String },
    /// Render the template `source` into `cache` (making its parent
    /// directory), then copy `cache` to `target`.
    RenderTemplate { source: String, cache: String, target: String },
}

/// The paths of an [`FsStep`].
pub enum FsStepView {
    RemoveFile { path: Seq<char> },
    DeleteParents { path: Seq<char>, target_side: bool },
    MakeSymlink { link: Seq<char>, original: Seq<char> },
    RenderTemplate { source: Seq<char>, cache: Seq<char>, target: Seq<char> },
}

impl View for FsStep {
    type V = FsStepView;

    open spec fn view(&self) -> FsStepView {
        match self {
            FsStep::RemoveFile { path } => FsStepView::RemoveFile { path: path@ },
            FsStep::DeleteParents { path, target_side } => FsStepView::DeleteParents {
                path: path@,
                target_side: *target_side,
            },
            FsStep::MakeSymlink { link, original } => FsStepView::MakeSymlink {
                link: link@,
                original: original@,
            },
            FsStep::RenderTemplate { source, cache, target } => FsStepView::RenderTemplate {
                source: source@,
                cache: cache@,
                target: target@,
            },
        }
    }
}

/// The views of a sequence of steps.
pub open spec fn steps_view(steps: Seq<FsStep>) -> Seq<FsStepView> {
    steps.map_values(|s: FsStep| s@)
}

/// What removing a deployed file comes to, by what is on disk.
pub open spec fn delete_outcome(comparison: FileCompareState) -> DeleteAction {
    match comparison {
        FileCompareState::Equal => DeleteAction::Deleted,
        FileCompareState::Changed => DeleteAction::SkippedBecauseChanged,
        FileCompareState::Missing => DeleteAction::DeletedBecauseMissing,
    }
}

/// What deploying a file comes to, by what is on disk.
pub open spec fn update_outcome(comparison: FileCompareState) -> UpdateAction {
    match comparison {
        FileCompareState::Equal => UpdateAction::Updated,
        FileCompareState::Changed => UpdateAction::SkippedBecauseChanged,
        FileCompareState::Missing => UpdateAction::UpdatedBecauseMissing,
    }
}

/// The steps that removing an unwanted symbolic link takes.
pub open spec fn delete_symlink_steps(
    act: bool,
    symlink: DescriptionView,
    comparison: FileCompareState,
) -> Seq<FsStepView> {
    if act && comparison == FileCompareState::Equal {
        seq![
            FsStepView::RemoveFile { path: symlink.target },
            FsStepView::DeleteParents { path: symlink.target, target_side: true },
        ]
    } else {
        Seq::empty()
    }
}

/// The steps that removing an unwanted template takes.
pub open spec fn delete_template_steps(
    act: bool,
    template: DescriptionView,
    comparison: FileCompareState,
) -> Seq<FsStepView> {
    if act && comparison == FileCompareState::Equal {
        seq![
            FsStepView::RemoveFile { path: template.target },
            FsStepView::DeleteParents { path: template.cache, target_side: false },
            FsStepView::DeleteParents { path: template.target, target_side: true },
        ]
    } else {
        Seq::empty()
    }
}

/// The steps that deploying a symbolic link takes.
pub open spec fn update_symlink_steps(
    act: bool,
    symlink: DescriptionView,
    comparison: FileCompareState,
    force: bool,
) -> Seq<FsStepView> {
    (if act && force && comparison == FileCompareState::Changed {
        seq![FsStepView::RemoveFile { path: symlink.target }]
    } else {
        Seq::empty()
    }) + (if act && forced_symlink_state(comparison, force) == FileCompareState::Missing {
        seq![FsStepView::MakeSymlink { link: symlink.target, original: symlink.source }]
    } else {
        Seq::empty()
    })
}

/// The steps that deploying a template takes.
pub open spec fn update_template_steps(
    act: bool,
    template: DescriptionView,
    comparison: FileCompareState,
    force: bool,
) -> Seq<FsStepView> {
    (if act && force {
        seq![FsStepView::RemoveFile { path: template.target }]
    } else {
        Seq::empty()
    }) + (if act && forced_template_state(comparison, force) != FileCompareState::Changed {
        seq![
            FsStepView::RenderTemplate {
                source: template.source,
                cache: template.cache,
                target: template.target,
            },
        ]
    } else {
        Seq::empty()
    })
}

fn delete_outcome_of(comparison: FileCompareState) -> (r: DeleteAction)
    ensures
        r == delete_outcome(comparison),
{
    match comparison {
        FileCompareState::Equal => DeleteAction::Deleted,
        FileCompareState::Changed => DeleteAction::SkippedBecauseChanged,
        FileCompareState::Missing => DeleteAction::DeletedBecauseMissing,
    }
}

fn update_outcome_of(comparison: FileCompareState) -> (r: UpdateAction)
    ensures
        r == update_outcome(comparison),
{
    match comparison {
        FileCompareState::Equal => UpdateAction::Updated,
        FileCompareState::Changed => UpdateAction::SkippedBecauseChanged,
        FileCompareState::Missing => UpdateAction::UpdatedBecauseMissing,
    }
}

/// Removing a symbolic link that is no longer wanted.  `comparison` is what
/// the link on disk looks like (after `--force` has had its say): only a
/// link that still points at its source is removed, with the directories
/// it leaves empty, and only when `act` is set.
pub fn delete_symlink(act: bool, symlink: &FileDescription, comparison: FileCompareState) -> (r: (
    Vec<FsStep>,
    DeleteAction,
))
    ensures
        steps_view(r.0@) == delete_symlink_steps(act, symlink@, comparison),
        r.1 == delete_outcome(comparison),
{
    let mut steps: Vec<FsStep> = Vec::new();
    if act && comparison == FileCompareState::Equal {
        steps.push(FsStep::RemoveFile { path: symlink.target.clone() });
        steps.push(FsStep::DeleteParents { path: symlink.target.clone(), target_side: true });
    }
    assert(steps_view(steps@) =~= if act && comparison == FileCompareState::Equal {
        seq![
            FsStepView::RemoveFile { path: symlink.target@ },
            FsStepView::DeleteParents { path: symlink.target@, target_side: true },
        ]
    } else {
        Seq::empty()
    });
    (steps, delete_outcome_of(comparison))
}

/// Removing a template that is no longer wanted.  `comparison` is what the
/// file on disk looks like next to the cached copy (after `--force` has had
/// its say): only an unchanged file is removed, with the directories that
/// it and its cached copy leave empty, and only when `act` is set.
pub fn delete_template(act: bool, template: &FileDescription, comparison: FileCompareState) -> (r: (
    Vec<FsStep>,
    DeleteAction,
))
    ensures
        steps_view(r.0@) == delete_template_steps(act, template@, comparison),
        r.1 == delete_outcome(comparison),
{
    let mut steps: Vec<FsStep> = Vec::new();
    if act && comparison == FileCompareState::Equal {
        steps.push(FsStep::RemoveFile { path: template.target.clone() });
        steps.push(FsStep::DeleteParents { path: template.cache.clone(), target_side: false });
        steps.push(FsStep::DeleteParents { path: template.target.clone(), target_side: true });
    }
    assert(steps_view(steps@) =~= if act && comparison == FileCompareState::Equal {
        seq![
            FsStepView::RemoveFile { path: template.target@ },
            FsStepView::DeleteParents { path: template.cache@, target_side: false },
            FsStepView::DeleteParents { path: template.target@, target_side: true },
        ]
    } else {
        Seq::empty()
    });
    (steps, delete_outcome_of(comparison))
}

/// What a symbolic link on disk counts as once `--force` has had its say:
/// a changed file is overwritten, so it counts as missing.
pub open spec fn forced_symlink_state(comparison: FileCompareState, force: bool) -> FileCompareState {
    if force && comparison == FileCompareState::Changed {
        FileCompareState::Missing
    } else {
        comparison
    }
}

/// What a template on disk counts as once `--force` has had its say: it is
/// overwritten, so it counts as missing.
pub open spec fn forced_template_state(comparison: FileCompareState, force: bool) -> FileCompareState {
    if force {
        FileCompareState::Missing
    } else {
        comparison
    }
}

/// Deploying a symbolic link.  `comparison` is what the target on disk looks
/// like.  With `force` a changed target counts as missing, and is removed
/// when `act` is set; a missing link is made when `act` is set.  Without
/// `act` (a dry run) nothing is done on disk.
pub fn update_symlink(
    act: bool,
    symlink: &FileDescription,
    comparison: FileCompareState,
    force: bool,
) -> (r: (Vec<FsStep>, UpdateAction))
    ensures
        steps_view(r.0@) == update_symlink_steps(act, symlink@, comparison, force),
        r.1 == update_outcome(forced_symlink_state(comparison, force)),
{
    let mut steps: Vec<FsStep> = Vec::new();
    let mut state = comparison;
    if force && comparison == FileCompareState::Changed {
        if act {
            steps.push(FsStep::RemoveFile { path: symlink.target.clone() });
        }
        state = FileCompareState::Missing;
    }
    let ghost removed = steps_view(steps@);
    if act && state == FileCompareState::Missing {
        steps.push(
            FsStep::MakeSymlink { link: symlink.target.clone(), original: symlink.source.clone() },
        );
    }
    assert(steps_view(steps@) =~= removed + (if act && state == FileCompareState::Missing {
        seq![FsStepView::MakeSymlink { link: symlink.target@, original: symlink.source@ }]
    } else {
        Seq::empty()
    }));
    (steps, update_outcome_of(state))
}

/// Deploying a template.  `comparison` is what the target on disk looks
/// like next to the cached copy.  With `force` the target counts as
/// missing, and is removed when `act` is set; an unchanged or missing
/// target is rendered anew when `act` is set.  Without `act` (a dry run)
/// nothing is done on disk.
pub fn update_template(
    act: bool,
    template: &FileDescription,
    comparison: FileCompareState,
    force: bool,
) -> (r: (Vec<FsStep>, UpdateAction))
    ensures
        steps_view(r.0@) == update_template_steps(act, template@, comparison, force),
        r.1 == update_outcome(forced_template_state(comparison, force)),
{
    let mut steps: Vec<FsStep> = Vec::new();
    let mut state = comparison;
    if force {
        if act {
            steps.push(FsStep::RemoveFile { path: template.target.clone() });
        }
        state = FileCompareState::Missing;
    }
    let ghost removed = steps_view(steps@);
    if act && state != FileCompareState::Changed {
        steps.push(
            FsStep::RenderTemplate {
                source: template.source.clone(),
                cache: template.cache.clone(),
                target: template.target.clone(),
            },
        );
    }
    assert(steps_view(steps@) =~= removed + (if act && state != FileCompareState::Changed {
        seq![
            FsStepView::RenderTemplate {
                source: template.source@,
                cache: template.cache@,
                target: template.target@,
            },
        ]
    } else {
        Seq::empty()
    }));
    (steps, update_outcome_of(state))
}

/// The cache after a file that is no longer wanted was dealt with: it is
/// forgotten unless it was left alone because it had been changed.
pub open spec fn after_deletion(
    cache: Map<Seq<char>, Seq<char>>,
    deleted: PairView,
    action: DeleteAction,
) -> Map<Seq<char>, Seq<char>> {
    if action == DeleteAction::SkippedBecauseChanged {
        cache
    } else {
        cache.remove(normal_form(deleted.0))
    }
}

/// The cache after a new file was dealt with: it is recorded unless it was
/// left alone because the target had been changed.
pub open spec fn after_new_file(
    cache: Map<Seq<char>, Seq<char>>,
    new_file: PairView,
    action: UpdateAction,
) -> Map<Seq<char>, Seq<char>> {
    if action == UpdateAction::SkippedBecauseChanged {
        cache
    } else {
        cache.insert(normal_form(new_file.0), normal_form(new_file.1))
    }
}

/// Records in the cache what came of removing a file that is no longer
/// wanted.
pub fn record_deletion(actual: &mut Files, deleted: &FileDescription, action: DeleteAction)
    ensures
        final(actual).as_map() == after_deletion(
            old(actual).as_map(),
            (deleted.source@, deleted.target@),
            action,
        ),
{
    if action != DeleteAction::SkippedBecauseChanged {
        actual.remove(&deleted.source);
    }
}

/// Records in the cache what came of deploying a new file.
pub fn record_new_file(actual: &mut Files, new_file: &FileDescription, action: UpdateAction)
    ensures
        final(actual).as_map() == after_new_file(
            old(actual).as_map(),
            (new_file.source@, new_file.target@),
            action,
        ),
{
    if action != UpdateAction::SkippedBecauseChanged {
        actual.insert(new_file.source.clone(), new_file.target.clone());
    }
}

} // verus!
