//! The order in which a deployment deals with its files, and what the
//! cache records of each step.
use vstd::prelude::*;
use crate::deploy::{
    DeleteAction, UpdateAction, after_deletion, after_new_file, record_deletion, record_new_file,
};
use crate::files::Files;
use crate::state::{DescriptionView, FileDescription, FileState, FileStateView, common, descriptions_view, minus};

verus! {

/// How a file is deployed.
#[derive(Clone, Copy, Debug, PartialEq, Eq, Structural)]
pub enum FileKind {
    Symlink,
    Template,
}

/// What is done with a file.
#[derive(Clone, Copy, Debug, PartialEq, Eq, Structural)]
pub enum Stage {
    /// It is no longer wanted: remove it.
    Delete,
    /// It is newly wanted: deploy it.
    Create,
    /// It stays wanted: deploy it again.
    Update,
}

/// One file to deal with, and how.
#[derive(Debug, PartialEq, Eq)]
pub struct Task {
    pub stage: Stage,
    pub kind: FileKind,
    pub file: FileDescription,
}

/// The view of a [`Task`].
pub struct TaskView {
    pub stage: Stage,
    pub kind: FileKind,
    pub file: DescriptionView,
}

impl View for Task {
    type V = TaskView;

    open spec fn view(&self) -> TaskView {
        TaskView { stage: self.stage, kind: self.kind, file: self.file@ }
    }
}

/// The views of a sequence of tasks.
pub open spec fn tasks_view(tasks: Seq<Task>) -> Seq<TaskView> {
    tasks.map_values(|t: Task| t@)
}

/// The files `files`, each to be dealt with at `stage` as `kind`.
pub open spec fn tagged(files: Seq<DescriptionView>, stage: Stage, kind: FileKind) -> Seq<TaskView> {
    files.map_values(|f: DescriptionView| TaskView { stage, kind, file: f })
}

/// The tasks of a deployment, in order: removing the symbolic links and then
/// the templates no longer wanted, deploying the new symbolic links and then
/// the new templates, and deploying again the symbolic links and then the
/// templates that stay wanted.  Every removal comes before every new file.
pub open spec fn planned_tasks(s: FileStateView) -> Seq<TaskView> {
    tagged(minus(s.existing_symlinks, s.desired_symlinks), Stage::Delete, FileKind::Symlink)
        + tagged(minus(s.existing_templates, s.desired_templates), Stage::Delete, FileKind::Template)
        + tagged(minus(s.desired_symlinks, s.existing_symlinks), Stage::Create, FileKind::Symlink)
        + tagged(minus(s.desired_templates, s.existing_templates), Stage::Create, FileKind::Template)
        + tagged(common(s.desired_symlinks, s.existing_symlinks), Stage::Update, FileKind::Symlink)
        + tagged(common(s.desired_templates, s.existing_templates), Stage::Update, FileKind::Template)
}

fn push_tasks(tasks: &mut Vec<Task>, files: Vec<FileDescription>, stage: Stage, kind: FileKind)
    ensures
        tasks_view(final(tasks)@) == tasks_view(old(tasks)@) + tagged(
            descriptions_view(files@),
            stage,
            kind,
        ),
{
    let ghost start = tasks_view(tasks@);
    let n = files.len();
    let mut i: usize = 0;
    while i < n
        invariant
            n == files@.len(),
            i <= n,
            tasks_view(tasks@) == start + tagged(descriptions_view(files@).take(i as int), stage, kind),
        decreases n - i,
    {
        let file = files[i].copy();
        let ghost before = tasks_view(tasks@);
        tasks.push(Task { stage, kind, file });
        proof {
            assert(tasks_view(tasks@) =~= before.push(
                TaskView { stage, kind, file: descriptions_view(files@)[i as int] },
            ));
            assert(tagged(descriptions_view(files@).take(i + 1), stage, kind) =~= tagged(
                descriptions_view(files@).take(i as int),
                stage,
                kind,
            ).push(TaskView { stage, kind, file: descriptions_view(files@)[i as int] }));
        }
        i = i + 1;
    }
    assert(descriptions_view(files@).take(n as int) =~= descriptions_view(files@));
}

/// The tasks of a deployment of `state`, in the order they are dealt with.
pub fn deployment_tasks(state: &FileState) -> (r: Vec<Task>)
    ensures
        tasks_view(r@) == planned_tasks(state@),
{
    let (deleted_symlinks, deleted_templates) = state.deleted_files();
    let (new_symlinks, new_templates) = state.new_files();
    let (old_symlinks, old_templates) = state.old_files();
    let mut tasks: Vec<Task> = Vec::new();
    assert(tasks_view(tasks@) =~= Seq::<TaskView>::empty());
    push_tasks(&mut tasks, deleted_symlinks, Stage::Delete, FileKind::Symlink);
    push_tasks(&mut tasks, deleted_templates, Stage::Delete, FileKind::Template);
    push_tasks(&mut tasks, new_symlinks, Stage::Create, FileKind::Symlink);
    push_tasks(&mut tasks, new_templates, Stage::Create, FileKind::Template);
    push_tasks(&mut tasks, old_symlinks, Stage::Update, FileKind::Symlink);
    push_tasks(&mut tasks, old_templates, Stage::Update, FileKind::Template);
    assert(tasks_view(tasks@) =~= planned_tasks(state@));
    tasks
}

/// What came of dealing with a task.
#[derive(Clone, Copy, Debug, PartialEq, Eq, Structural)]
pub enum TaskOutcome {
    /// What came of removing a file.
    Deletion(DeleteAction),
    /// What came of deploying a file.
    Deployment(UpdateAction),
}

/// The caches of symbolic links and of templates after a task: a removed
/// file and a newly deployed file are recorded as [`after_deletion`] and
/// [`after_new_file`] say; a file deployed again changes nothing, and
/// neither does an outcome that does not belong to the task's stage.
pub open spec fn after_task(
    caches: (Map<Seq<char>, Seq<char>>, Map<Seq<char>, Seq<char>>),
    task: TaskView,
    outcome: TaskOutcome,
) -> (Map<Seq<char>, Seq<char>>, Map<Seq<char>, Seq<char>>) {
    let pair = (task.file.source, task.file.target);
    match (task.stage, outcome) {
        (Stage::Delete, TaskOutcome::Deletion(a)) => if task.kind == FileKind::Symlink {
            (after_deletion(caches.0, pair, a), caches.1)
        } else {
            (caches.0, after_deletion(caches.1, pair, a))
        },
        (Stage::Create, TaskOutcome::Deployment(a)) => if task.kind == FileKind::Symlink {
            (after_new_file(caches.0, pair, a), caches.1)
        } else {
            (caches.0, after_new_file(caches.1, pair, a))
        },
        _ => caches,
    }
}

/// Records in the caches of symbolic links and of templates what came of a
/// task.
pub fn record_task(symlinks: &mut Files, templates: &mut Files, task: &Task, outcome: TaskOutcome)
    ensures
        (final(symlinks).as_map(), final(templates).as_map()) == after_task(
            (old(symlinks).as_map(), old(templates).as_map()),
            task@,
            outcome,
        ),
{
    match (task.stage, outcome) {
        (Stage::Delete, TaskOutcome::Deletion(a)) => {
            if task.kind == FileKind::Symlink {
                record_deletion(symlinks, &task.file, a);
            } else {
                record_deletion(templates, &task.file, a);
            }
        },
        (Stage::Create, TaskOutcome::Deployment(a)) => {
            if task.kind == FileKind::Symlink {
                record_new_file(symlinks, &task.file, a);
            } else {
                record_new_file(templates, &task.file, a);
            }
        },
        _ => {},
    }
}

} // verus!
