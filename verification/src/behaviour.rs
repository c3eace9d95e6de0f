//! What each decision of a deployment does, stated over its inputs.
use vstd::prelude::*;
use crate::deploy::{
    DeleteAction, FileCompareState, FsStepView, UpdateAction, delete_outcome, delete_symlink_steps,
    delete_template_steps, forced_symlink_state, forced_template_state, has_template_marker,
    update_outcome, update_symlink_steps, update_template_steps,
};
use crate::plan::{FileKind, Stage, TaskView, planned_tasks, tagged};
use crate::state::{DescriptionView, FileStateView, common, minus};

verus! {

broadcast use vstd::seq_lib::group_seq_properties, vstd::seq_lib::group_filter_ensures;

/// A text is a template exactly when `{{` stands somewhere in it: wherever
/// `{{` stands, at the start, in the middle or at the end, the text is a
/// template, and a template holds `{{` between some text before and after.
pub proof fn lemma_template_marker_anywhere(before: Seq<char>, after: Seq<char>, text: Seq<char>)
    ensures
        has_template_marker(before + seq!['{', '{'] + after),
        has_template_marker(text) ==> exists|a: Seq<char>, b: Seq<char>|
            text == a + seq!['{', '{'] + b,
        (forall|i: int| 0 <= i < text.len() ==> text[i] != '{') ==> !has_template_marker(text),
{
    let t = before + seq!['{', '{'] + after;
    let i = before.len() as int;
    assert(t[i] == '{' && t[i + 1] == '{');
    if has_template_marker(text) {
        let w = choose|w: int| 0 <= w && w + 1 < text.len() && #[trigger] text[w] == '{' && text[w + 1] == '{';
        let a = text.take(w);
        let b = text.skip(w + 2);
        assert(text =~= a + seq!['{', '{'] + b);
    }
    if forall|i: int| 0 <= i < text.len() ==> text[i] != '{' {
        if has_template_marker(text) {
            let w = choose|w: int| 0 <= w && w + 1 < text.len() && #[trigger] text[w] == '{' && text[w + 1] == '{';
            assert(text[w] != '{');
        }
    }
}

/// Deploying a template: a dry run does nothing; otherwise a target that is
/// not kept as changed is always rendered anew, as the last step; with
/// `force` the target is removed first and then rendered, whatever is on
/// disk; without `force` a changed target is left alone; and the outcome
/// says whether the target was there before.
pub proof fn lemma_update_template_behaviour(
    act: bool,
    file: DescriptionView,
    comparison: FileCompareState,
    force: bool,
)
    ensures
        !act ==> update_template_steps(act, file, comparison, force).len() == 0,
        act && (force || comparison != FileCompareState::Changed) ==> {
            let steps = update_template_steps(act, file, comparison, force);
            &&& steps.len() > 0
            &&& steps.last() == FsStepView::RenderTemplate {
                source: file.source,
                cache: file.cache,
                target: file.target,
            }
        },
        act && force ==> update_template_steps(act, file, comparison, force) == seq![
            FsStepView::RemoveFile { path: file.target },
            FsStepView::RenderTemplate { source: file.source, cache: file.cache, target: file.target },
        ],
        act && !force && comparison != FileCompareState::Changed ==> update_template_steps(
            act,
            file,
            comparison,
            force,
        ) == seq![
            FsStepView::RenderTemplate { source: file.source, cache: file.cache, target: file.target },
        ],
        !force && comparison == FileCompareState::Changed ==> update_template_steps(
            act,
            file,
            comparison,
            force,
        ).len() == 0 && update_outcome(forced_template_state(comparison, force))
            == UpdateAction::SkippedBecauseChanged,
        force ==> update_outcome(forced_template_state(comparison, force))
            == UpdateAction::UpdatedBecauseMissing,
        !force && comparison == FileCompareState::Equal ==> update_outcome(
            forced_template_state(comparison, force),
        ) == UpdateAction::Updated,
        comparison == FileCompareState::Missing ==> update_outcome(
            forced_template_state(comparison, force),
        ) == UpdateAction::UpdatedBecauseMissing,
{
    let steps = update_template_steps(act, file, comparison, force);
    if act && force {
        assert(steps =~= seq![
            FsStepView::RemoveFile { path: file.target },
            FsStepView::RenderTemplate { source: file.source, cache: file.cache, target: file.target },
        ]);
    }
    if act && !force && comparison != FileCompareState::Changed {
        assert(steps =~= seq![
            FsStepView::RenderTemplate { source: file.source, cache: file.cache, target: file.target },
        ]);
    }
    if !act || (!force && comparison == FileCompareState::Changed) {
        assert(steps =~= Seq::<FsStepView>::empty());
    }
}

/// Deploying a symbolic link: `force` changes only what happens to a
/// changed target, so on any other target a call with `force` and one
/// without plan the same steps and give the same outcome; a missing link is
/// made (when acting) and reported as missing; a link in place needs
/// nothing; a changed target is left alone without `force`, and with it is
/// removed and linked anew.
pub proof fn lemma_update_symlink_behaviour(
    act: bool,
    file: DescriptionView,
    comparison: FileCompareState,
    force: bool,
)
    ensures
        comparison != FileCompareState::Changed ==> update_symlink_steps(
            act,
            file,
            comparison,
            true,
        ) == update_symlink_steps(act, file, comparison, false) && update_outcome(
            forced_symlink_state(comparison, true),
        ) == update_outcome(forced_symlink_state(comparison, false)),
        act && comparison == FileCompareState::Missing ==> update_symlink_steps(
            act,
            file,
            comparison,
            force,
        ) == seq![FsStepView::MakeSymlink { link: file.target, original: file.source }],
        comparison == FileCompareState::Missing ==> update_outcome(
            forced_symlink_state(comparison, force),
        ) == UpdateAction::UpdatedBecauseMissing,
        comparison == FileCompareState::Equal ==> update_symlink_steps(
            act,
            file,
            comparison,
            force,
        ).len() == 0 && update_outcome(forced_symlink_state(comparison, force))
            == UpdateAction::Updated,
        comparison == FileCompareState::Changed && !force ==> update_symlink_steps(
            act,
            file,
            comparison,
            force,
        ).len() == 0 && update_outcome(forced_symlink_state(comparison, force))
            == UpdateAction::SkippedBecauseChanged,
        act && comparison == FileCompareState::Changed && force ==> update_symlink_steps(
            act,
            file,
            comparison,
            force,
        ) == seq![
            FsStepView::RemoveFile { path: file.target },
            FsStepView::MakeSymlink { link: file.target, original: file.source },
        ] && update_outcome(forced_symlink_state(comparison, force))
            == UpdateAction::UpdatedBecauseMissing,
        !act ==> update_symlink_steps(act, file, comparison, force).len() == 0,
{
    let e = Seq::<FsStepView>::empty();
    let make = seq![FsStepView::MakeSymlink { link: file.target, original: file.source }];
    if comparison != FileCompareState::Changed {
        assert(update_symlink_steps(act, file, comparison, true) =~= update_symlink_steps(
            act,
            file,
            comparison,
            false,
        ));
    }
    if act && comparison == FileCompareState::Missing {
        assert(update_symlink_steps(act, file, comparison, force) =~= make);
    }
    if comparison == FileCompareState::Equal || (comparison == FileCompareState::Changed
        && !force) || !act {
        assert(update_symlink_steps(act, file, comparison, force) =~= e);
    }
    if act && comparison == FileCompareState::Changed && force {
        assert(update_symlink_steps(act, file, comparison, force) =~= seq![
            FsStepView::RemoveFile { path: file.target },
            FsStepView::MakeSymlink { link: file.target, original: file.source },
        ]);
    }
}

/// Removing a file that is no longer wanted: something is done on disk only
/// when acting on a target that is what was deployed; then the target is
/// removed first, and the directories left empty after it (and, for a
/// template, after its cached copy) go too.  A missing or changed target is
/// left as it is; the outcome says which of the three it was.
pub proof fn lemma_delete_behaviour(act: bool, file: DescriptionView, comparison: FileCompareState)
    ensures
        delete_symlink_steps(act, file, comparison).len() > 0 ==> act && comparison
            == FileCompareState::Equal,
        delete_template_steps(act, file, comparison).len() > 0 ==> act && comparison
            == FileCompareState::Equal,
        act && comparison == FileCompareState::Equal ==> {
            let s = delete_symlink_steps(act, file, comparison);
            let t = delete_template_steps(act, file, comparison);
            &&& s.len() > 0 && s[0] == FsStepView::RemoveFile { path: file.target }
            &&& s.contains(FsStepView::DeleteParents { path: file.target, target_side: true })
            &&& t.len() > 0 && t[0] == FsStepView::RemoveFile { path: file.target }
            &&& t.contains(FsStepView::DeleteParents { path: file.cache, target_side: false })
            &&& t.contains(FsStepView::DeleteParents { path: file.target, target_side: true })
        },
        comparison == FileCompareState::Equal ==> delete_outcome(comparison) == DeleteAction::Deleted,
        comparison == FileCompareState::Changed ==> delete_outcome(comparison)
            == DeleteAction::SkippedBecauseChanged,
        comparison == FileCompareState::Missing ==> delete_outcome(comparison)
            == DeleteAction::DeletedBecauseMissing,
{
    if act && comparison == FileCompareState::Equal {
        let s = delete_symlink_steps(act, file, comparison);
        let t = delete_template_steps(act, file, comparison);
        assert(s[1] == FsStepView::DeleteParents { path: file.target, target_side: true });
        assert(t[1] == FsStepView::DeleteParents { path: file.cache, target_side: false });
        assert(t[2] == FsStepView::DeleteParents { path: file.target, target_side: true });
    }
}

/// A task is among `tagged(files, stage, kind)` exactly when it has that
/// stage and kind and its file is among `files`.
proof fn lemma_tagged_member(files: Seq<DescriptionView>, stage: Stage, kind: FileKind, t: TaskView)
    ensures
        tagged(files, stage, kind).contains(t) <==> (t.stage == stage && t.kind == kind
            && files.contains(t.file)),
{
    let g = tagged(files, stage, kind);
    if g.contains(t) {
        let i = choose|i: int| 0 <= i < g.len() && g[i] == t;
        assert(files[i] == t.file);
    }
    if t.stage == stage && t.kind == kind && files.contains(t.file) {
        let i = choose|i: int| 0 <= i < files.len() && files[i] == t.file;
        assert(g[i] == t);
    }
}

proof fn lemma_filter_membership(
    a: Seq<DescriptionView>,
    pred: spec_fn(DescriptionView) -> bool,
    x: DescriptionView,
)
    ensures
        a.filter(pred).contains(x) <==> (a.contains(x) && pred(x)),
{
    if a.filter(pred).contains(x) {
        a.lemma_filter_contains_rev(pred, x);
        let i = choose|i: int| 0 <= i < a.filter(pred).len() && a.filter(pred)[i] == x;
        a.lemma_filter_pred(pred, i);
    }
    if a.contains(x) && pred(x) {
        let i = choose|i: int| 0 <= i < a.len() && a[i] == x;
        a.lemma_filter_contains(pred, i);
    }
}

/// The tasks of a deployment are exactly these: every file deployed but no
/// longer wanted is removed, every file wanted but not deployed is
/// deployed, and every file both wanted and deployed is deployed again,
/// each as the kind it is kept as; there is no other task.
pub proof fn lemma_planned_tasks_cover(s: FileStateView)
    ensures
        forall|t: TaskView| #[trigger]
            planned_tasks(s).contains(t) <==> {
                ||| t.stage == Stage::Delete && t.kind == FileKind::Symlink
                    && s.existing_symlinks.contains(t.file) && !s.desired_symlinks.contains(
                    t.file,
                )
                ||| t.stage == Stage::Delete && t.kind == FileKind::Template
                    && s.existing_templates.contains(t.file) && !s.desired_templates.contains(
                    t.file,
                )
                ||| t.stage == Stage::Create && t.kind == FileKind::Symlink
                    && s.desired_symlinks.contains(t.file) && !s.existing_symlinks.contains(
                    t.file,
                )
                ||| t.stage == Stage::Create && t.kind == FileKind::Template
                    && s.desired_templates.contains(t.file) && !s.existing_templates.contains(
                    t.file,
                )
                ||| t.stage == Stage::Update && t.kind == FileKind::Symlink
                    && s.desired_symlinks.contains(t.file) && s.existing_symlinks.contains(t.file)
                ||| t.stage == Stage::Update && t.kind == FileKind::Template
                    && s.desired_templates.contains(t.file) && s.existing_templates.contains(
                    t.file,
                )
            },
{
    assert forall|t: TaskView| #[trigger]
        planned_tasks(s).contains(t) <==> {
            ||| t.stage == Stage::Delete && t.kind == FileKind::Symlink
                && s.existing_symlinks.contains(t.file) && !s.desired_symlinks.contains(t.file)
            ||| t.stage == Stage::Delete && t.kind == FileKind::Template
                && s.existing_templates.contains(t.file) && !s.desired_templates.contains(t.file)
            ||| t.stage == Stage::Create && t.kind == FileKind::Symlink
                && s.desired_symlinks.contains(t.file) && !s.existing_symlinks.contains(t.file)
            ||| t.stage == Stage::Create && t.kind == FileKind::Template
                && s.desired_templates.contains(t.file) && !s.existing_templates.contains(t.file)
            ||| t.stage == Stage::Update && t.kind == FileKind::Symlink
                && s.desired_symlinks.contains(t.file) && s.existing_symlinks.contains(t.file)
            ||| t.stage == Stage::Update && t.kind == FileKind::Template
                && s.desired_templates.contains(t.file) && s.existing_templates.contains(t.file)
        } by {
        let (ds, dt, es, et) = (
            s.desired_symlinks,
            s.desired_templates,
            s.existing_symlinks,
            s.existing_templates,
        );
        lemma_filter_membership(es, |d: DescriptionView| !ds.contains(d), t.file);
        lemma_filter_membership(et, |d: DescriptionView| !dt.contains(d), t.file);
        lemma_filter_membership(ds, |d: DescriptionView| !es.contains(d), t.file);
        lemma_filter_membership(dt, |d: DescriptionView| !et.contains(d), t.file);
        lemma_filter_membership(ds, |d: DescriptionView| es.contains(d), t.file);
        lemma_filter_membership(dt, |d: DescriptionView| et.contains(d), t.file);
        lemma_tagged_member(minus(es, ds), Stage::Delete, FileKind::Symlink, t);
        lemma_tagged_member(minus(et, dt), Stage::Delete, FileKind::Template, t);
        lemma_tagged_member(minus(ds, es), Stage::Create, FileKind::Symlink, t);
        lemma_tagged_member(minus(dt, et), Stage::Create, FileKind::Template, t);
        lemma_tagged_member(common(ds, es), Stage::Update, FileKind::Symlink, t);
        lemma_tagged_member(common(dt, et), Stage::Update, FileKind::Template, t);
    }
}

/// The tasks of a deployment come in stages: every removal comes before
/// every other task, and every redeployment of a kept file after every
/// other task.
pub proof fn lemma_planned_tasks_order(s: FileStateView)
    ensures
        forall|i: int, j: int|
            #![trigger planned_tasks(s)[i], planned_tasks(s)[j]]
            0 <= i < planned_tasks(s).len() && 0 <= j < planned_tasks(s).len()
                && planned_tasks(s)[i].stage == Stage::Delete && planned_tasks(s)[j].stage
                != Stage::Delete ==> i < j,
        forall|i: int, j: int|
            #![trigger planned_tasks(s)[i], planned_tasks(s)[j]]
            0 <= i < planned_tasks(s).len() && 0 <= j < planned_tasks(s).len()
                && planned_tasks(s)[i].stage == Stage::Update && planned_tasks(s)[j].stage
                != Stage::Update ==> j < i,
{
    let (ds, dt, es, et) = (
        s.desired_symlinks,
        s.desired_templates,
        s.existing_symlinks,
        s.existing_templates,
    );
    let a = tagged(minus(es, ds), Stage::Delete, FileKind::Symlink);
    let b = tagged(minus(et, dt), Stage::Delete, FileKind::Template);
    let c = tagged(minus(ds, es), Stage::Create, FileKind::Symlink);
    let d = tagged(minus(dt, et), Stage::Create, FileKind::Template);
    let e = tagged(common(ds, es), Stage::Update, FileKind::Symlink);
    let f = tagged(common(dt, et), Stage::Update, FileKind::Template);
    let tasks = planned_tasks(s);
    let p = a + b;
    let q = c + d;
    let r = e + f;
    assert(tasks =~= p + q + r);
    let np = p.len() as int;
    let nq = q.len() as int;
    assert forall|k: int| 0 <= k < tasks.len() implies (tasks[k].stage == Stage::Delete <==> k < np)
        && (tasks[k].stage == Stage::Update <==> k >= np + nq) by {
        if k < np {
            assert(tasks[k] == p[k]);
            if k < a.len() {
                assert(p[k] == a[k]);
            } else {
                assert(p[k] == b[k - a.len()]);
            }
        } else if k < np + nq {
            assert(tasks[k] == q[k - np]);
            if k - np < c.len() {
                assert(q[k - np] == c[k - np]);
            } else {
                assert(q[k - np] == d[k - np - c.len()]);
            }
        } else {
            assert(tasks[k] == r[k - np - nq]);
            if k - np - nq < e.len() {
                assert(r[k - np - nq] == e[k - np - nq]);
            } else {
                assert(r[k - np - nq] == f[k - np - nq - e.len()]);
            }
        }
    }
}

} // verus!
