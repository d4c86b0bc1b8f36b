use std::collections::HashSet;

use gitree::indent::{AsciiMarks, IndentationLevel, NullLevel, TreeLevel, UnicodeMarks};
use gitree::output::{write_tree_item, EntryInfo};
use gitree::pathtree::{in_walk_order, Tree, TreeBuilder, TreePath, TreeVisitor, TreeWalk};
use gitree::report::Report;

fn tp(text: &str) -> TreePath {
    let mut components = Vec::new();
    if text.starts_with('/') {
        components.push("/".to_string());
    }
    for part in text.split('/').filter(|p| !p.is_empty()) {
        components.push(part.to_string());
    }
    TreePath::new(text.to_string(), components)
}

fn build(texts: &[&str]) -> Tree {
    let paths: Vec<TreePath> = texts.iter().map(|t| tp(t)).collect();
    assert!(in_walk_order(&paths));
    TreeBuilder::from_paths(paths).unwrap().build()
}

fn node_text(tree: &Tree, index: usize) -> String {
    tree.get_node(index).path().text().clone()
}

fn children(tree: &Tree, index: usize) -> Vec<usize> {
    tree.get_node(index).children().clone()
}

/// Collects the lines of a drawing, treating the listed paths as
/// directories.
struct Lines {
    dirs: HashSet<String>,
    report: Report,
    lines: Vec<String>,
    print_path: bool,
}

impl<L: IndentationLevel> TreeVisitor<L, String> for Lines {
    fn visit(&mut self, level: &L, path: &TreePath) -> Result<(), String> {
        let entry = EntryInfo {
            style: None,
            is_dir: self.dirs.contains(path.text()),
            link: None,
        };
        let line = write_tree_item(&mut self.report, level, path, &entry, self.print_path);
        self.lines.push(line);
        Ok(())
    }
}

fn lines(dirs: &[&str], print_path: bool) -> Lines {
    Lines {
        dirs: dirs.iter().map(|d| d.to_string()).collect(),
        report: Report::new(),
        lines: Vec::new(),
        print_path,
    }
}

/// Stops at the given path.
struct FailAt {
    target: String,
    seen: Vec<String>,
}

impl<L: IndentationLevel> TreeVisitor<L, String> for FailAt {
    fn visit(&mut self, _level: &L, path: &TreePath) -> Result<(), String> {
        self.seen.push(path.text().clone());
        if *path.text() == self.target {
            Err(format!("cannot write {}", path.text()))
        } else {
            Ok(())
        }
    }
}

#[test]
fn empty_sequence_gives_no_tree() {
    assert!(TreeBuilder::from_paths(Vec::new()).is_none());
}

#[test]
fn single_root_tree() {
    let tree = build(&["/a"]);
    assert_eq!(tree.len(), 1);
    assert_eq!(node_text(&tree, 0), "/a");
    assert!(children(&tree, 0).is_empty());
}

#[test]
fn siblings_without_synthesized_nodes() {
    let tree = build(&["/a", "/a/b", "/a/b/c", "/a/d"]);
    assert_eq!(tree.len(), 4);
    assert_eq!(node_text(&tree, 0), "/a");
    assert_eq!(node_text(&tree, 1), "/a/b");
    assert_eq!(node_text(&tree, 2), "/a/b/c");
    assert_eq!(node_text(&tree, 3), "/a/d");
    assert_eq!(children(&tree, 0), vec![1, 3]);
    assert_eq!(children(&tree, 1), vec![2]);
    assert!(children(&tree, 2).is_empty());
    assert!(children(&tree, 3).is_empty());
}

#[test]
fn missing_ancestors_are_synthesized() {
    let tree = build(&["/a", "/a/x/y/z"]);
    assert_eq!(tree.len(), 4);
    assert_eq!(node_text(&tree, 1), "/a/x");
    assert_eq!(node_text(&tree, 2), "/a/x/y");
    assert_eq!(node_text(&tree, 3), "/a/x/y/z");
    assert_eq!(children(&tree, 0), vec![1]);
    assert_eq!(children(&tree, 1), vec![2]);
    assert_eq!(children(&tree, 2), vec![3]);
    assert!(children(&tree, 3).is_empty());
    assert_eq!(
        tree.get_node(2).path().components().clone(),
        vec!["/".to_string(), "a".to_string(), "x".to_string(), "y".to_string()]
    );
}

#[test]
fn synthesized_ancestors_below_a_shared_prefix() {
    let tree = build(&["/r", "/r/a", "/r/a/b/c", "/r/d/e"]);
    let texts: Vec<String> = (0..tree.len()).map(|i| node_text(&tree, i)).collect();
    assert_eq!(texts, vec!["/r", "/r/a", "/r/a/b", "/r/a/b/c", "/r/d", "/r/d/e"]);
    assert_eq!(children(&tree, 0), vec![1, 4]);
    assert_eq!(children(&tree, 1), vec![2]);
    assert_eq!(children(&tree, 4), vec![5]);
}

#[test]
fn relative_root_is_kept_as_given() {
    let paths = vec![
        TreePath::new("./".to_string(), vec![".".to_string()]),
        TreePath::new("./src/lib.rs".to_string(), vec![".".to_string(), "src".to_string(), "lib.rs".to_string()]),
    ];
    let tree = TreeBuilder::from_paths(paths).unwrap().build();
    assert_eq!(tree.len(), 3);
    assert_eq!(node_text(&tree, 0), "./");
    assert_eq!(node_text(&tree, 1), "./src");
}

#[test]
fn walk_order_check() {
    let ok: Vec<TreePath> = ["/a", "/a/b", "/a/c"].iter().map(|t| tp(t)).collect();
    assert!(in_walk_order(&ok));
    let repeated: Vec<TreePath> = ["/a", "/a/b", "/a/b"].iter().map(|t| tp(t)).collect();
    assert!(!in_walk_order(&repeated));
    let ancestor_after: Vec<TreePath> = ["/a", "/a/b/c", "/a/b"].iter().map(|t| tp(t)).collect();
    assert!(!in_walk_order(&ancestor_after));
    let outside: Vec<TreePath> = ["/a", "/b/c"].iter().map(|t| tp(t)).collect();
    assert!(!in_walk_order(&outside));
    let root_again: Vec<TreePath> = ["/a", "/a"].iter().map(|t| tp(t)).collect();
    assert!(!in_walk_order(&root_again));
    assert!(in_walk_order(&Vec::new()));
}

#[test]
fn walk_visits_nodes_in_insertion_order_with_depths() {
    let tree = build(&["/a", "/a/b", "/a/b/c", "/a/d", "/a/d/e/f"]);
    let mut walk = TreeWalk::new();
    let mut level = TreeLevel::<UnicodeMarks>::new();
    let mut seen = Vec::new();
    while let Some(index) = tree.advance(&mut walk, &mut level) {
        let depth = tree.get_node(index).path().components().len() - 2;
        seen.push((index, level.is_empty(), level.render().chars().count() / 4 == depth));
    }
    assert_eq!(
        seen,
        vec![(0, true, true), (1, false, true), (2, false, true), (3, false, true), (4, false, true), (5, false, true)]
    );
    assert!(level.is_empty());
    assert_eq!(tree.advance(&mut walk, &mut level), None);
}

#[test]
fn rendering_unicode_scenario() {
    let tree = build(&["/r", "/r/a", "/r/b", "/r/b/c"]);
    let mut level = TreeLevel::<UnicodeMarks>::new();
    let mut out = lines(&["/r", "/r/b"], false);
    assert_eq!(tree.for_each(&mut level, &mut out), Ok(()));
    assert_eq!(out.lines.concat(), "/r\n├── a\n└── b\n    └── c\n");
    assert_eq!(out.report.to_string(), "1 directory, 2 files");
}

#[test]
fn rendering_ascii_with_bars() {
    let tree = build(&["/r", "/r/a", "/r/a/x", "/r/a/y", "/r/b"]);
    let mut level = TreeLevel::<AsciiMarks>::new();
    let mut out = lines(&["/r", "/r/a"], false);
    assert_eq!(tree.for_each(&mut level, &mut out), Ok(()));
    assert_eq!(
        out.lines.concat(),
        "/r\n|-- a\n|   |-- x\n|   `-- y\n`-- b\n"
    );
    assert_eq!(out.report.to_string(), "1 directory, 3 files");
}

#[test]
fn rendering_flat_with_full_paths() {
    let tree = build(&["/r", "/r/a", "/r/a/x"]);
    let mut level = NullLevel::new();
    let mut out = lines(&["/r", "/r/a"], true);
    assert_eq!(tree.for_each(&mut level, &mut out), Ok(()));
    assert_eq!(out.lines.concat(), "/r\n/r/a\n/r/a/x\n");
    assert_eq!(out.report.to_string(), "1 directory, 1 file");
}

#[test]
fn corner_glyphs_match_sibling_groups() {
    let tree = build(&["/r", "/r/a", "/r/a/x", "/r/a/y", "/r/b", "/r/b/z", "/r/c"]);
    let mut level = TreeLevel::<UnicodeMarks>::new();
    let mut out = lines(&[], false);
    assert_eq!(tree.for_each(&mut level, &mut out), Ok(()));
    let corners_at = |depth: usize| {
        out.lines
            .iter()
            .filter(|l| {
                let chars: Vec<char> = l.chars().collect();
                chars.len() >= 4 * depth && chars[4 * (depth - 1)] == '└'
            })
            .count()
    };
    // Depth 1: the root's group; depth 2: the groups of a and b.
    assert_eq!(corners_at(1), 1);
    assert_eq!(corners_at(2), 2);
}

#[test]
fn traversal_stops_at_first_error() {
    let tree = build(&["/r", "/r/a", "/r/a/x", "/r/b"]);
    let mut level = TreeLevel::<UnicodeMarks>::with_capacity(4);
    let mut visitor = FailAt { target: "/r/a".to_string(), seen: Vec::new() };
    assert_eq!(tree.for_each(&mut level, &mut visitor), Err("cannot write /r/a".to_string()));
    assert_eq!(visitor.seen, vec!["/r".to_string(), "/r/a".to_string()]);
}

#[test]
fn walk_from_open_levels() {
    let tree = build(&["/r", "/r/a", "/r/b"]);
    let mut level = TreeLevel::<AsciiMarks>::new();
    level.indent();
    let mut out = lines(&["/r"], false);
    assert_eq!(tree.for_each(&mut level, &mut out), Ok(()));
    assert_eq!(out.lines.concat(), "|-- r\n|   |-- a\n|   `-- b\n");
    assert_eq!(level.render(), "|-- ");
    assert_eq!(out.report.to_string(), "1 directory, 2 files");
}
