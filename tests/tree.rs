use robojules::diff::{calculate_folder_diff, classify_changes, file_digest, unflatten_tree, FileState, FilesystemItem};
use robojules::pathmap::PathMap;

fn snapshot(entries: &[(&str, &str)]) -> PathMap<String> {
    let mut m = PathMap::new();
    for (k, v) in entries {
        m.insert(k.to_string(), v.to_string());
    }
    m
}

fn states(entries: &[(&str, FileState)]) -> PathMap<FileState> {
    let mut m = PathMap::new();
    for (k, v) in entries {
        m.insert(k.to_string(), *v);
    }
    m
}

/// Follows `path` through the nested items.
fn lookup(items: &[FilesystemItem], path: &str) -> Option<FileState> {
    match path.split_once('/') {
        Some((head, tail)) => items.iter().find_map(|i| match i {
            FilesystemItem::Directory { name: Some(n), children } if n == head => lookup(children, tail),
            _ => None,
        }),
        None => items.iter().find_map(|i| match i {
            FilesystemItem::File { name, state } if name == path => Some(*state),
            _ => None,
        }),
    }
}

fn count_files(items: &[FilesystemItem]) -> usize {
    items
        .iter()
        .map(|i| match i {
            FilesystemItem::File { .. } => 1,
            FilesystemItem::Directory { children, .. } => count_files(children),
        })
        .sum()
}

#[test]
fn modified_and_added_files_are_classified() {
    let old = snapshot(&[("a.txt", "h1")]);
    let new = snapshot(&[("a.txt", "h2"), ("b.txt", "h3")]);
    let diff = calculate_folder_diff("old".to_string(), &old, "new".to_string(), &new);
    assert_eq!(diff.old, "old");
    assert_eq!(diff.new, "new");
    assert_eq!(diff.dir.len(), 2);
    assert_eq!(lookup(&diff.dir, "a.txt"), Some(FileState::Modified));
    assert_eq!(lookup(&diff.dir, "b.txt"), Some(FileState::Added));
    assert!(!diff.dir.iter().any(|i| matches!(i, FilesystemItem::File { state: FileState::Removed, .. })));
}

#[test]
fn directory_against_itself_is_empty() {
    let s = snapshot(&[("a.txt", "h1"), ("src/lib.rs", "h2"), ("src/x/y.rs", "h3")]);
    let diff = calculate_folder_diff("d".to_string(), &s, "d".to_string(), &s);
    assert!(diff.dir.is_empty());
    assert_eq!(classify_changes(&s, &s).len(), 0);
}

#[test]
fn removed_and_unchanged_files() {
    let old = snapshot(&[("keep", "same"), ("gone/x.js", "h"), ("mod", "1")]);
    let new = snapshot(&[("keep", "same"), ("mod", "2"), ("new/y.js", "h")]);
    let changes = classify_changes(&old, &new);
    assert_eq!(changes.len(), 3);
    assert_eq!(changes.get("gone/x.js"), Some(&FileState::Removed));
    assert_eq!(changes.get("mod"), Some(&FileState::Modified));
    assert_eq!(changes.get("new/y.js"), Some(&FileState::Added));
    assert_eq!(changes.get("keep"), None);
}

#[test]
fn unflatten_reaches_every_path() {
    let paths = [
        ("a/b/c.txt", FileState::Added),
        ("a/d.txt", FileState::Removed),
        ("e.txt", FileState::Modified),
        ("ab", FileState::Added),
        ("a/b/f.txt", FileState::Modified),
        ("z/y/x/w.rs", FileState::Removed),
    ];
    let m = states(&paths);
    let dir = unflatten_tree(&m, None).unwrap();
    for (p, s) in paths {
        assert_eq!(lookup(&dir, p), Some(s), "{}", p);
    }
    assert_eq!(count_files(&dir), paths.len());
    assert_eq!(lookup(&dir, "a/b"), None);
    assert_eq!(lookup(&dir, "c.txt"), None);
}

#[test]
fn unflatten_lists_directories_first_once_each() {
    let m = states(&[
        ("top.txt", FileState::Added),
        ("a/one", FileState::Added),
        ("b/two", FileState::Added),
        ("a/three", FileState::Removed),
    ]);
    let dir = unflatten_tree(&m, None).unwrap();
    let names: Vec<String> = dir
        .iter()
        .map(|i| match i {
            FilesystemItem::Directory { name, .. } => format!("{}/", name.clone().unwrap()),
            FilesystemItem::File { name, .. } => name.clone(),
        })
        .collect();
    assert_eq!(names, vec!["a/", "b/", "top.txt"]);
    match &dir[0] {
        FilesystemItem::Directory { children, .. } => assert_eq!(children.len(), 2),
        _ => panic!("expected a directory"),
    }
}

#[test]
fn unflatten_below_a_prefix() {
    let m = states(&[("src/a.rs", FileState::Added), ("src/m/b.rs", FileState::Removed), ("srcx/c.rs", FileState::Added)]);
    let dir = unflatten_tree(&m, Some("src".to_string())).unwrap();
    assert_eq!(lookup(&dir, "a.rs"), Some(FileState::Added));
    assert_eq!(lookup(&dir, "m/b.rs"), Some(FileState::Removed));
    assert_eq!(count_files(&dir), 2);
    assert!(unflatten_tree(&m, Some("nothing".to_string())).unwrap().is_empty());
}

#[test]
fn unflatten_of_empty_map_is_empty() {
    let m: PathMap<FileState> = PathMap::new();
    assert!(unflatten_tree(&m, None).unwrap().is_empty());
}

#[test]
fn digest_is_lowercase_sha256_hex() {
    assert_eq!(file_digest(b"abc"), "ba7816bf8f01cfea414140de5dae2223b00361a396177a9cb410ff61f20015ad");
    assert_eq!(file_digest(b""), "e3b0c44298fc1c149afbf4c8996fb92427ae41e4649b934ca495991b7852b855");
    assert_ne!(file_digest(b"a"), file_digest(b"b"));
}

#[test]
fn path_map_keeps_keys_unique() {
    let mut m = PathMap::new();
    m.insert("x".to_string(), 1);
    m.insert("y".to_string(), 2);
    m.insert("x".to_string(), 3);
    assert_eq!(m.len(), 2);
    assert_eq!(m.get("x"), Some(&3));
    assert_eq!(m.key_at(0), "x");
    assert_eq!(m.key_at(1), "y");
    assert!(m.contains_key("y"));
    assert!(!m.contains_key("z"));
}

fn render(items: &[FilesystemItem]) -> String {
    items
        .iter()
        .map(|i| match i {
            FilesystemItem::File { name, state } => format!("{}:{:?}", name, state),
            FilesystemItem::Directory { name, children } => {
                format!("{}/[{}]", name.clone().unwrap_or_default(), render(children))
            }
        })
        .collect::<Vec<_>>()
        .join(",")
}

#[test]
fn unflatten_gives_the_exact_tree() {
    let m = states(&[
        ("src/main.rs", FileState::Modified),
        ("src/util/io.rs", FileState::Added),
        ("README.md", FileState::Removed),
    ]);
    let dir = unflatten_tree(&m, None).unwrap();
    assert_eq!(render(&dir), "src/[util/[io.rs:Added],main.rs:Modified],README.md:Removed");
}

#[test]
fn unflatten_keeps_prefix_siblings_apart() {
    let m = states(&[("a/x", FileState::Added), ("ab/y", FileState::Removed)]);
    let dir = unflatten_tree(&m, None).unwrap();
    assert_eq!(render(&dir), "a/[x:Added],ab/[y:Removed]");
    let sub = unflatten_tree(&m, Some("a".to_string())).unwrap();
    assert_eq!(render(&sub), "x:Added");
}

#[test]
fn cloned_tree_is_equal() {
    let m = states(&[("d/e/f", FileState::Added), ("g", FileState::Removed)]);
    let dir = unflatten_tree(&m, None).unwrap();
    let copy: Vec<FilesystemItem> = dir.iter().map(|i| i.clone()).collect();
    assert_eq!(render(&copy), render(&dir));
}
