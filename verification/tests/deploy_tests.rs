use dotter::deploy::{
    delete_symlink, delete_template, is_template, record_deletion, record_new_file, split_files,
    update_symlink, update_template, DeleteAction, FileCompareState, FsStep, UpdateAction,
};
use dotter::files::Files;
use dotter::state::{FileDescription, FileState};

fn desc(source: &str, target: &str, cache: &str) -> FileDescription {
    FileDescription { source: source.into(), target: target.into(), cache: cache.into() }
}

fn remove(p: &str) -> FsStep {
    FsStep::RemoveFile { path: p.into() }
}

fn parents(p: &str, target_side: bool) -> FsStep {
    FsStep::DeleteParents { path: p.into(), target_side }
}

fn pairs(f: &Files) -> Vec<(String, String)> {
    (0..f.len()).map(|i| (f.entry(i).0.clone(), f.entry(i).1.clone())).collect()
}

#[test]
fn template_marker_is_two_opening_braces() {
    assert!(is_template(Some("Hello {{name}}")));
    assert!(is_template(Some("é{{")));
    assert!(!is_template(Some("{ {")));
    assert!(!is_template(Some("{")));
    assert!(!is_template(Some("")));
    assert!(!is_template(Some("}}{")));
    assert!(!is_template(None));
}

#[test]
fn files_split_into_symlinks_and_templates() {
    let mut f = Files::new();
    f.insert("a".into(), "ta".into());
    f.insert("b".into(), "tb".into());
    f.insert("c".into(), "tc".into());
    let (links, templates) = split_files(f, true, &vec![false, true, false]);
    assert_eq!(pairs(&links), vec![("a".into(), "ta".into()), ("c".into(), "tc".into())]);
    assert_eq!(pairs(&templates), vec![("b".to_string(), "tb".to_string())]);
}

#[test]
fn without_symlinks_every_file_is_a_template() {
    let mut f = Files::new();
    f.insert("a".into(), "ta".into());
    f.insert("b".into(), "tb".into());
    let (links, templates) = split_files(f, false, &vec![false, false]);
    assert_eq!(links.len(), 0);
    assert_eq!(templates.len(), 2);
}

#[test]
fn deleting_an_unchanged_symlink() {
    let d = desc("s", "t/x", "c/s");
    assert_eq!(
        delete_symlink(true, &d, FileCompareState::Equal),
        (vec![remove("t/x"), parents("t/x", true)], DeleteAction::Deleted)
    );
    assert_eq!(delete_symlink(false, &d, FileCompareState::Equal), (vec![], DeleteAction::Deleted));
    assert_eq!(
        delete_symlink(true, &d, FileCompareState::Changed),
        (vec![], DeleteAction::SkippedBecauseChanged)
    );
    assert_eq!(
        delete_symlink(true, &d, FileCompareState::Missing),
        (vec![], DeleteAction::DeletedBecauseMissing)
    );
}

#[test]
fn deleting_an_unchanged_template() {
    let d = desc("s", "t/x", "c/s");
    assert_eq!(
        delete_template(true, &d, FileCompareState::Equal),
        (vec![remove("t/x"), parents("c/s", false), parents("t/x", true)], DeleteAction::Deleted)
    );
    assert_eq!(
        delete_template(true, &d, FileCompareState::Changed),
        (vec![], DeleteAction::SkippedBecauseChanged)
    );
    assert_eq!(
        delete_template(false, &d, FileCompareState::Missing),
        (vec![], DeleteAction::DeletedBecauseMissing)
    );
}

#[test]
fn updating_a_symlink() {
    let d = desc("s", "t", "c");
    let link = || FsStep::MakeSymlink { link: "t".into(), original: "s".into() };
    assert_eq!(
        update_symlink(true, &d, FileCompareState::Missing, false),
        (vec![link()], UpdateAction::UpdatedBecauseMissing)
    );
    assert_eq!(update_symlink(true, &d, FileCompareState::Equal, true), (vec![], UpdateAction::Updated));
    assert_eq!(
        update_symlink(true, &d, FileCompareState::Changed, false),
        (vec![], UpdateAction::SkippedBecauseChanged)
    );
    assert_eq!(
        update_symlink(true, &d, FileCompareState::Changed, true),
        (vec![remove("t"), link()], UpdateAction::UpdatedBecauseMissing)
    );
    assert_eq!(
        update_symlink(false, &d, FileCompareState::Changed, true),
        (vec![], UpdateAction::UpdatedBecauseMissing)
    );
}

#[test]
fn updating_a_template() {
    let d = desc("s", "t", "c");
    let render = || FsStep::RenderTemplate { source: "s".into(), cache: "c".into(), target: "t".into() };
    assert_eq!(
        update_template(true, &d, FileCompareState::Equal, false),
        (vec![render()], UpdateAction::Updated)
    );
    assert_eq!(
        update_template(true, &d, FileCompareState::Missing, false),
        (vec![render()], UpdateAction::UpdatedBecauseMissing)
    );
    assert_eq!(
        update_template(true, &d, FileCompareState::Changed, false),
        (vec![], UpdateAction::SkippedBecauseChanged)
    );
    assert_eq!(
        update_template(true, &d, FileCompareState::Changed, true),
        (vec![remove("t"), render()], UpdateAction::UpdatedBecauseMissing)
    );
    assert_eq!(
        update_template(false, &d, FileCompareState::Equal, true),
        (vec![], UpdateAction::UpdatedBecauseMissing)
    );
    assert_eq!(update_template(false, &d, FileCompareState::Equal, false), (vec![], UpdateAction::Updated));
}

#[test]
fn cache_records_what_came_of_each_file() {
    let mut cache = Files::new();
    cache.insert("a".into(), "ta".into());
    cache.insert("b".into(), "tb".into());
    record_deletion(&mut cache, &desc("a", "ta", "ca"), DeleteAction::SkippedBecauseChanged);
    assert_eq!(cache.len(), 2);
    record_deletion(&mut cache, &desc("a", "ta", "ca"), DeleteAction::DeletedBecauseMissing);
    assert_eq!(pairs(&cache), vec![("b".to_string(), "tb".to_string())]);
    record_new_file(&mut cache, &desc("c", "tc", "cc"), UpdateAction::SkippedBecauseChanged);
    assert_eq!(cache.len(), 1);
    record_new_file(&mut cache, &desc("c", "tc", "cc"), UpdateAction::Updated);
    record_new_file(&mut cache, &desc("b", "tb2", "cb"), UpdateAction::UpdatedBecauseMissing);
    assert_eq!(
        pairs(&cache),
        vec![("b".to_string(), "tb2".to_string()), ("c".to_string(), "tc".to_string())]
    );
}

#[test]
fn deploying_everything_brings_the_cache_to_the_wanted_files() {
    let build = |entries: &[(&str, &str)]| {
        let mut f = Files::new();
        for (s, t) in entries {
            f.insert(s.to_string(), t.to_string());
        }
        f
    };
    let existing = [("file1s", "file1t"), ("file2s", "file2t"), ("file3s", "file3t")];
    let desired = [("file1s", "file1t"), ("file3s", "file0t"), ("file5s", "file5t")];
    let state = FileState::new(build(&desired), Files::new(), build(&existing), Files::new(), "cache".into());
    let mut actual = build(&existing);
    let (deleted, _) = state.deleted_files();
    for d in &deleted {
        let (_, outcome) = delete_symlink(true, d, FileCompareState::Equal);
        record_deletion(&mut actual, d, outcome);
    }
    let (new_files, _) = state.new_files();
    for n in &new_files {
        let (_, outcome) = update_symlink(true, n, FileCompareState::Missing, false);
        record_new_file(&mut actual, n, outcome);
    }
    assert_eq!(pairs(&actual), pairs(&build(&desired)));
}

#[test]
fn dry_run_plans_nothing() {
    let d = desc("s", "t", "c");
    for c in [FileCompareState::Equal, FileCompareState::Changed, FileCompareState::Missing] {
        assert!(delete_symlink(false, &d, c).0.is_empty());
        assert!(delete_template(false, &d, c).0.is_empty());
        for force in [false, true] {
            assert!(update_symlink(false, &d, c, force).0.is_empty());
            assert!(update_template(false, &d, c, force).0.is_empty());
        }
    }
}

#[test]
fn changed_files_are_left_alone_without_force() {
    let d = desc("s", "t", "c");
    let c = FileCompareState::Changed;
    assert_eq!(delete_symlink(true, &d, c), (vec![], DeleteAction::SkippedBecauseChanged));
    assert_eq!(delete_template(true, &d, c), (vec![], DeleteAction::SkippedBecauseChanged));
    assert_eq!(update_symlink(true, &d, c, false), (vec![], UpdateAction::SkippedBecauseChanged));
    assert_eq!(update_template(true, &d, c, false), (vec![], UpdateAction::SkippedBecauseChanged));
    let mut cache = Files::new();
    cache.insert("s".into(), "t".into());
    record_deletion(&mut cache, &d, DeleteAction::SkippedBecauseChanged);
    record_new_file(&mut cache, &desc("s", "other", "c"), UpdateAction::SkippedBecauseChanged);
    assert_eq!(pairs(&cache), vec![("s".to_string(), "t".to_string())]);
}

#[test]
fn every_file_is_gone_new_or_kept() {
    let build = |entries: &[(&str, &str)]| {
        let mut f = Files::new();
        for (s, t) in entries {
            f.insert(s.to_string(), t.to_string());
        }
        f
    };
    let existing = [("a", "1"), ("b", "2"), ("c", "3")];
    let desired = [("a", "1"), ("c", "4"), ("d", "5")];
    let state = FileState::new(build(&desired), Files::new(), build(&existing), Files::new(), "k".into());
    let (gone, _) = state.deleted_files();
    let (new, _) = state.new_files();
    let (kept, _) = state.old_files();
    let key = |d: &FileDescription| (d.source.clone(), d.target.clone());
    let mut deployed: Vec<_> = gone.iter().chain(kept.iter()).map(key).collect();
    deployed.sort();
    assert_eq!(deployed, existing.iter().map(|(s, t)| (s.to_string(), t.to_string())).collect::<Vec<_>>());
    let mut wanted: Vec<_> = new.iter().chain(kept.iter()).map(key).collect();
    wanted.sort();
    assert_eq!(wanted, desired.iter().map(|(s, t)| (s.to_string(), t.to_string())).collect::<Vec<_>>());
    assert!(gone.iter().all(|g| !new.contains(g)));
}
