use std::collections::HashMap;

use mdnest::tree::{DirEntry, EntryKind, TraversalError, TreeNode, TreeWalk, WalkRequest, MAX_DEPTH, MAX_NODES};

enum Fake {
    File(u64),
    Dir(Vec<String>),
    Unlistable,
    Unreadable,
}

fn join(dir: &str, name: &str) -> String {
    format!("{}/{}", dir, name)
}

fn walk(fs: &HashMap<String, Fake>, root: &str) -> Result<TreeNode, TraversalError> {
    let name = root.rsplit('/').next().unwrap().to_string();
    let (mut w, mut req) = TreeWalk::start(DirEntry { name, path: root.to_string() });
    loop {
        req = match req {
            WalkRequest::Inspect(p) => {
                let kind = match fs.get(&p) {
                    None => Err(TraversalError::NotFound),
                    Some(Fake::Unreadable) => Err(TraversalError::Unreadable),
                    Some(Fake::File(n)) => Ok(EntryKind::File(*n)),
                    Some(_) => Ok(EntryKind::Directory),
                };
                w.inspected(kind)
            }
            WalkRequest::List(p) => {
                let listing = match fs.get(&p) {
                    Some(Fake::Dir(names)) => Some(
                        names
                            .iter()
                            .map(|n| DirEntry { name: n.clone(), path: join(&p, n) })
                            .collect(),
                    ),
                    _ => None,
                };
                w.listed(listing)
            }
            WalkRequest::Finished => break,
        };
    }
    w.into_outcome().unwrap()
}

fn names(node: &TreeNode) -> Vec<String> {
    node.children.as_ref().unwrap().iter().map(|c| c.name.clone()).collect()
}

#[test]
fn small_tree_is_mirrored_in_name_order() {
    let mut fs = HashMap::new();
    fs.insert("r".to_string(), Fake::Dir(vec!["b.md".into(), "a".into(), "c.txt".into()]));
    fs.insert("r/a".to_string(), Fake::Dir(vec!["z.md".into()]));
    fs.insert("r/a/z.md".to_string(), Fake::File(7));
    fs.insert("r/b.md".to_string(), Fake::File(12));
    fs.insert("r/c.txt".to_string(), Fake::File(0));
    let t = walk(&fs, "r").unwrap();
    assert!(t.is_dir);
    assert_eq!(t.name, "r");
    assert_eq!(t.size, None);
    assert_eq!(names(&t), vec!["a", "b.md", "c.txt"]);
    let kids = t.children.as_ref().unwrap();
    assert!(kids[0].is_dir);
    assert_eq!(kids[0].path, "r/a");
    assert_eq!(kids[0].size, None);
    let inner = &kids[0].children.as_ref().unwrap()[0];
    assert_eq!((inner.name.as_str(), inner.path.as_str(), inner.size), ("z.md", "r/a/z.md", Some(7)));
    assert!(inner.children.is_none());
    assert_eq!(kids[1].size, Some(12));
    assert_eq!(kids[2].size, Some(0));
    assert!(kids[1].children.is_none());
}

#[test]
fn directory_over_node_budget_is_truncated() {
    let mut fs = HashMap::new();
    let files: Vec<String> = (0..=MAX_NODES).map(|i| format!("f{:05}", i)).collect();
    for f in &files {
        fs.insert(join("big", f), Fake::File(1));
    }
    fs.insert("big".to_string(), Fake::Dir(files));
    let t = walk(&fs, "big").unwrap();
    let kids = t.children.as_ref().unwrap();
    assert_eq!(kids.len(), MAX_NODES);
    assert!(kids.len() < MAX_NODES + 1);
    assert_eq!(kids[0].name, "f00000");
}

#[test]
fn directory_at_depth_limit_has_empty_children() {
    let mut fs = HashMap::new();
    let mut path = "d0".to_string();
    for i in 0..MAX_DEPTH + 3 {
        let child = format!("d{}", i + 1);
        fs.insert(path.clone(), Fake::Dir(vec![child.clone()]));
        path = join(&path, &child);
    }
    fs.insert(path, Fake::Dir(vec![]));
    let t = walk(&fs, "d0").unwrap();
    let mut node = &t;
    for _ in 0..MAX_DEPTH {
        let kids = node.children.as_ref().unwrap();
        assert_eq!(kids.len(), 1);
        node = &kids[0];
    }
    assert!(node.is_dir);
    assert_eq!(node.name, format!("d{}", MAX_DEPTH));
    assert_eq!(node.children.as_ref().map(|c| c.len()), Some(0));
}

#[test]
fn missing_root_fails() {
    let fs = HashMap::new();
    assert_eq!(walk(&fs, "nowhere").unwrap_err(), TraversalError::NotFound);
}

#[test]
fn unreadable_root_fails() {
    let mut fs = HashMap::new();
    fs.insert("r".to_string(), Fake::Unreadable);
    assert_eq!(walk(&fs, "r").unwrap_err(), TraversalError::Unreadable);
}

#[test]
fn root_file_is_a_leaf() {
    let mut fs = HashMap::new();
    fs.insert("x/note.md".to_string(), Fake::File(42));
    let t = walk(&fs, "x/note.md").unwrap();
    assert!(!t.is_dir);
    assert_eq!(t.name, "note.md");
    assert_eq!(t.size, Some(42));
    assert!(t.children.is_none());
}

#[test]
fn unreadable_children_are_skipped() {
    let mut fs = HashMap::new();
    fs.insert("r".to_string(), Fake::Dir(vec!["a".into(), "gone".into(), "locked".into(), "z".into()]));
    fs.insert("r/a".to_string(), Fake::File(1));
    fs.insert("r/locked".to_string(), Fake::Unreadable);
    fs.insert("r/z".to_string(), Fake::Unlistable);
    let t = walk(&fs, "r").unwrap();
    assert_eq!(names(&t), vec!["a", "z"]);
    let z = &t.children.as_ref().unwrap()[1];
    assert!(z.is_dir);
    assert_eq!(z.children.as_ref().map(|c| c.len()), Some(0));
}
