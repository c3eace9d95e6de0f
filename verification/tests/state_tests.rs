use dotter::files::Files;
use dotter::state::{FileDescription, FileState};
use std::path::PathBuf;

fn description(source: &str, target: &str, cache: PathBuf) -> FileDescription {
    FileDescription {
        source: source.into(),
        target: target.into(),
        cache: cache.to_string_lossy().into_owned(),
    }
}

#[test]
fn test_file_state_symlinks_only() {
    // Testing symlinks only is enough for me because the logic should be the same
    let mut existing_symlinks = Files::new();
    existing_symlinks.insert("file1s".into(), "file1t".into()); // Same
    existing_symlinks.insert("file2s".into(), "file2t".into()); // Deleted
    existing_symlinks.insert("file3s".into(), "file3t".into()); // Target change

    let mut desired_symlinks = Files::new();
    desired_symlinks.insert("file1s".into(), "file1t".into()); // Same
    desired_symlinks.insert("file3s".into(), "file0t".into()); // Target change
    desired_symlinks.insert("file5s".into(), "file5t".into()); // New

    let state = FileState::new(
        desired_symlinks,
        Files::new(),
        existing_symlinks,
        Files::new(),
        "cache".into(),
    );

    assert_eq!(
        state.deleted_files(),
        (
            vec![
                description("file2s", "file2t", PathBuf::from("cache").join("file2s")),
                description("file3s", "file3t", PathBuf::from("cache").join("file3s")),
            ],
            Vec::new()
        ),
        "deleted files correct"
    );
    assert_eq!(
        state.new_files(),
        (
            vec![
                description("file3s", "file0t", PathBuf::from("cache").join("file3s")),
                description("file5s", "file5t", PathBuf::from("cache").join("file5s")),
            ],
            Vec::new()
        ),
        "new files correct"
    );
    assert_eq!(
        state.old_files(),
        (
            vec![description("file1s", "file1t", PathBuf::from("cache").join("file1s"))],
            Vec::new()
        ),
        "old files correct"
    );
}

fn files(entries: &[(&str, &str)]) -> Files {
    let mut f = Files::new();
    for (s, t) in entries {
        f.insert(s.to_string(), t.to_string());
    }
    f
}

#[test]
fn templates_are_sorted_out_like_symlinks() {
    let state = FileState::new(
        Files::new(),
        files(&[("b", "tb"), ("a", "ta")]),
        Files::new(),
        files(&[("c", "tc"), ("a", "ta"), ("b", "old")]),
        "dir".into(),
    );
    let cache = |s: &str| PathBuf::from("dir").join(s);
    assert_eq!(
        state.deleted_files(),
        (Vec::new(), vec![description("b", "old", cache("b")), description("c", "tc", cache("c"))])
    );
    assert_eq!(state.new_files(), (Vec::new(), vec![description("b", "tb", cache("b"))]));
    // kept templates are those both wanted and deployed
    assert_eq!(state.old_files(), (Vec::new(), vec![description("a", "ta", cache("a"))]));
}

#[test]
fn deploying_the_same_files_again_changes_nothing() {
    let entries = [("x/y", "t1"), ("x", "t2"), ("x-y", "t3")];
    let state = FileState::new(
        files(&entries),
        Files::new(),
        files(&entries),
        Files::new(),
        "c".into(),
    );
    assert_eq!(state.deleted_files(), (Vec::new(), Vec::new()));
    assert_eq!(state.new_files(), (Vec::new(), Vec::new()));
    let (kept, _) = state.old_files();
    let sources: Vec<&str> = kept.iter().map(|d| d.source.as_str()).collect();
    // path order: a path comes before the paths below it, which come before `x-y`
    assert_eq!(sources, vec!["x", "x/y", "x-y"]);
}

#[test]
fn cache_path_joins_source_onto_the_cache_directory() {
    let descriptions = FileState::files_to_set(files(&[("a/b", "t")]), &"cache".to_string());
    assert_eq!(descriptions.len(), 1);
    assert_eq!(
        descriptions[0].cache,
        PathBuf::from("cache").join("a/b").to_string_lossy().into_owned()
    );
    assert_ne!(descriptions[0].cache, "a/b");
    assert_ne!(descriptions[0].cache, "cache");
}

#[test]
fn absolute_source_replaces_the_cache_directory() {
    let descriptions = FileState::files_to_set(files(&[("/etc/x", "t")]), &"cache".to_string());
    assert_eq!(
        descriptions[0].cache,
        PathBuf::from("cache").join("/etc/x").to_string_lossy().into_owned()
    );
}

#[test]
fn kept_files_do_not_depend_on_which_side_they_come_from() {
    let wanted = [("a", "1"), ("b", "2"), ("c", "3")];
    let deployed = [("b", "2"), ("c", "9"), ("d", "4")];
    let (w, d) = (files(&wanted), files(&deployed));
    let one = FileState::new(w.copy(), w.copy(), d.copy(), d.copy(), "k".into());
    let other = FileState::new(d.copy(), d, w.copy(), w, "k".into());
    assert_eq!(one.old_files(), other.old_files());
    assert_eq!(one.old_files().0.len(), 1);
}

#[test]
fn dot_components_come_first_in_every_list() {
    let entries = [("-", "t1"), ("..", "t2")];
    let state = FileState::new(files(&entries), Files::new(), Files::new(), Files::new(), "c".into());
    let (new, _) = state.new_files();
    let sources: Vec<&str> = new.iter().map(|d| d.source.as_str()).collect();
    assert_eq!(sources, vec!["..", "-"]);
    let state = FileState::new(Files::new(), Files::new(), files(&entries), Files::new(), "c".into());
    let (gone, _) = state.deleted_files();
    let sources: Vec<&str> = gone.iter().map(|d| d.source.as_str()).collect();
    assert_eq!(sources, vec!["..", "-"]);
    let wanted = files(&entries);
    let state = FileState::new(wanted.copy(), Files::new(), wanted, Files::new(), "c".into());
    let (kept, _) = state.old_files();
    let sources: Vec<&str> = kept.iter().map(|d| d.source.as_str()).collect();
    assert_eq!(sources, vec!["..", "-"]);
}
