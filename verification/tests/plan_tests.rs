use dotter::deploy::{DeleteAction, UpdateAction};
use dotter::files::Files;
use dotter::plan::{deployment_tasks, record_task, FileKind, Stage, TaskOutcome};
use dotter::state::FileState;

fn files(entries: &[(&str, &str)]) -> Files {
    let mut f = Files::new();
    for (s, t) in entries {
        f.insert(s.to_string(), t.to_string());
    }
    f
}

fn pairs(f: &Files) -> Vec<(String, String)> {
    (0..f.len()).map(|i| (f.entry(i).0.clone(), f.entry(i).1.clone())).collect()
}

#[test]
fn removals_come_before_new_files() {
    let state = FileState::new(
        files(&[("s1", "n"), ("s2", "t2")]),
        files(&[("t1", "x")]),
        files(&[("s1", "o"), ("s3", "t3")]),
        files(&[("t0", "y"), ("t1", "x")]),
        "c".into(),
    );
    let tasks = deployment_tasks(&state);
    let order: Vec<(Stage, FileKind, &str, &str)> = tasks
        .iter()
        .map(|t| (t.stage, t.kind, t.file.source.as_str(), t.file.target.as_str()))
        .collect();
    assert_eq!(
        order,
        vec![
            (Stage::Delete, FileKind::Symlink, "s1", "o"),
            (Stage::Delete, FileKind::Symlink, "s3", "t3"),
            (Stage::Delete, FileKind::Template, "t0", "y"),
            (Stage::Create, FileKind::Symlink, "s1", "n"),
            (Stage::Create, FileKind::Symlink, "s2", "t2"),
            (Stage::Update, FileKind::Template, "t1", "x"),
        ]
    );
}

#[test]
fn a_deployment_that_goes_through_records_the_wanted_files() {
    let wanted_links = [("s1", "n"), ("s2", "t2")];
    let wanted_templates = [("t1", "x")];
    let deployed_links = [("s1", "o"), ("s3", "t3")];
    let deployed_templates = [("t0", "y"), ("t1", "x")];
    let state = FileState::new(
        files(&wanted_links),
        files(&wanted_templates),
        files(&deployed_links),
        files(&deployed_templates),
        "c".into(),
    );
    let mut links = files(&deployed_links);
    let mut templates = files(&deployed_templates);
    for task in &deployment_tasks(&state) {
        let outcome = match task.stage {
            Stage::Delete => TaskOutcome::Deletion(DeleteAction::Deleted),
            Stage::Create => TaskOutcome::Deployment(UpdateAction::UpdatedBecauseMissing),
            Stage::Update => TaskOutcome::Deployment(UpdateAction::Updated),
        };
        record_task(&mut links, &mut templates, task, outcome);
    }
    assert_eq!(pairs(&links), pairs(&files(&wanted_links)));
    assert_eq!(pairs(&templates), pairs(&files(&wanted_templates)));
}

#[test]
fn an_outcome_of_another_stage_records_nothing() {
    let state = FileState::new(files(&[]), files(&[]), files(&[("a", "b")]), files(&[]), "c".into());
    let tasks = deployment_tasks(&state);
    let mut links = files(&[("a", "b")]);
    let mut templates = Files::new();
    record_task(&mut links, &mut templates, &tasks[0], TaskOutcome::Deployment(UpdateAction::Updated));
    assert_eq!(links.len(), 1);
    record_task(&mut links, &mut templates, &tasks[0], TaskOutcome::Deletion(DeleteAction::Deleted));
    assert_eq!(links.len(), 0);
}
