use dotter::files::Files;
use dotter::path::{normalize_path, path_less};

fn sources(f: &Files) -> Vec<String> {
    (0..f.len()).map(|i| f.entry(i).0.clone()).collect()
}

#[test]
fn path_order_goes_by_components() {
    assert!(path_less("a", "b"));
    assert!(!path_less("b", "a"));
    assert!(!path_less("a", "a"));
    assert!(path_less("a", "a/b"));
    assert!(path_less("a/b", "a-b"));
    assert!(!path_less("a-b", "a/b"));
    assert!(path_less("a/c", "ab/c"));
    assert!(path_less("", "a"));
    assert!(path_less("é", "ê"));
}

#[test]
fn path_order_puts_dot_components_before_names() {
    assert!(path_less("..", "-"));
    assert!(!path_less("-", ".."));
    assert!(path_less("..", ".-"));
    assert!(path_less("./x", "-x"));
    assert!(path_less(".", ".."));
    assert!(path_less("/a", "a"));
    assert!(path_less("/", "."));
    assert!(path_less("../a", "..a"));
    assert!(!path_less("a", "a/"));
    assert!(!path_less("a/", "a"));
}

#[test]
fn path_order_agrees_with_std_path_order() {
    use_std_order(&["..", "-", ".-", "./x", "-x", "a", "a/b", "a-b", "ab/c", "a/c", "/a", "/", "", "b/../c", "b/..c"]);
}

fn use_std_order(paths: &[&str]) {
    for a in paths {
        for b in paths {
            let std_less = std::path::Path::new(a) < std::path::Path::new(b);
            assert_eq!(path_less(a, b), std_less, "{:?} < {:?}", a, b);
        }
    }
}

#[test]
fn insert_keeps_sources_in_order() {
    let mut f = Files::new();
    assert_eq!(f.insert("b".into(), "1".into()), None);
    assert_eq!(f.insert("a-b".into(), "2".into()), None);
    assert_eq!(f.insert("a/b".into(), "3".into()), None);
    assert_eq!(f.insert("a".into(), "4".into()), None);
    assert_eq!(sources(&f), vec!["a", "a/b", "a-b", "b"]);
    assert_eq!(f.len(), 4);
}

#[test]
fn insert_replaces_the_target_of_a_known_source() {
    let mut f = Files::new();
    f.insert("s".into(), "old".into());
    assert_eq!(f.insert("s".into(), "new".into()), Some("old".to_string()));
    assert_eq!(f.len(), 1);
    assert_eq!(f.entry(0), (&"s".to_string(), &"new".to_string()));
}

#[test]
fn remove_takes_a_source_out() {
    let mut f = Files::new();
    f.insert("a".into(), "1".into());
    f.insert("b".into(), "2".into());
    f.insert("c".into(), "3".into());
    assert_eq!(f.remove(&"b".to_string()), Some("2".to_string()));
    assert_eq!(f.remove(&"b".to_string()), None);
    assert_eq!(f.remove(&"zz".to_string()), None);
    assert_eq!(sources(&f), vec!["a", "c"]);
}

#[test]
fn insert_then_remove_gives_back_the_map() {
    let mut f = Files::new();
    f.insert("a".into(), "1".into());
    f.insert("c".into(), "3".into());
    f.insert("b".into(), "2".into());
    f.remove(&"b".to_string());
    assert_eq!(sources(&f), vec!["a", "c"]);
    assert_eq!(f.entry(1), (&"c".to_string(), &"3".to_string()));
}

#[test]
fn copy_has_the_same_entries() {
    let mut f = Files::new();
    f.insert("b".into(), "1".into());
    f.insert("a".into(), "2".into());
    let g = f.copy();
    assert_eq!(sources(&g), sources(&f));
    assert_eq!(g.entry(0), f.entry(0));
}

#[test]
fn split_by_keeps_order() {
    let mut f = Files::new();
    for s in ["a", "b", "c", "d"] {
        f.insert(s.into(), format!("t{}", s));
    }
    let (yes, no) = f.split_by(&vec![true, false, false, true]);
    assert_eq!(sources(&yes), vec!["a", "d"]);
    assert_eq!(sources(&no), vec!["b", "c"]);
    assert_eq!(yes.entry(1).1, "td");
}

#[test]
fn into_entries_gives_the_pairs_in_order() {
    let mut f = Files::new();
    f.insert("z".into(), "1".into());
    f.insert("y".into(), "2".into());
    assert_eq!(
        f.into_entries(),
        vec![("y".to_string(), "2".to_string()), ("z".to_string(), "1".to_string())]
    );
}

#[test]
fn paths_are_kept_by_their_components() {
    assert_eq!(normalize_path("a/"), "a");
    assert_eq!(normalize_path("a//b/./c/"), "a/b/c");
    assert_eq!(normalize_path("./a"), "./a");
    assert_eq!(normalize_path("/./a"), "/a");
    assert_eq!(normalize_path("//"), "/");
    assert_eq!(normalize_path("/"), "/");
    assert_eq!(normalize_path(""), "");
    assert_eq!(normalize_path("a/../b"), "a/../b");
    assert_eq!(normalize_path(&normalize_path("x//./y/")), normalize_path("x//./y/"));
}

#[test]
fn the_same_path_written_twice_is_one_key() {
    let mut f = Files::new();
    assert_eq!(f.insert("a/".into(), "t//x".into()), None);
    assert_eq!(f.insert("a".into(), "u".into()), Some("t/x".to_string()));
    assert_eq!(f.len(), 1);
    assert_eq!(f.remove(&"./a/.".to_string()), None);
    assert_eq!(f.remove(&"a//".to_string()), Some("u".to_string()));
    assert_eq!(f.len(), 0);
}
