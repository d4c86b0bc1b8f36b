use ansi_term::{Colour, Style};

use gitree::indent::{IndentationLevel, TreeLevel, UnicodeMarks};
use gitree::output::{get_path_label, write_tree_item, EntryInfo, LinkTarget};
use gitree::pathtree::TreePath;
use gitree::report::Report;

fn tp(text: &str) -> TreePath {
    let mut components = Vec::new();
    if text.starts_with('/') {
        components.push("/".to_string());
    }
    for part in text.split('/').filter(|p| !p.is_empty()) {
        components.push(part.to_string());
    }
    TreePath::new(text.to_string(), components)
}

#[test]
fn labels() {
    assert_eq!(get_path_label(&tp("/r/a.txt"), false), "a.txt");
    assert_eq!(get_path_label(&tp("/r/a.txt"), true), "/r/a.txt");
    assert_eq!(get_path_label(&tp("/"), false), "..");
    assert_eq!(
        get_path_label(&TreePath::new("a/..".to_string(), vec!["a".to_string(), "..".to_string()]), false),
        ".."
    );
}

#[test]
fn root_line_shows_full_path_and_is_not_counted() {
    let level = TreeLevel::<UnicodeMarks>::new();
    let mut report = Report::new();
    let entry = EntryInfo { style: None, is_dir: true, link: None };
    let line = write_tree_item(&mut report, &level, &tp("/r/sub"), &entry, false);
    assert_eq!(line, "/r/sub\n");
    assert_eq!(report.to_string(), "0 directories, 0 files");
}

#[test]
fn styled_label_is_painted() {
    let mut level = TreeLevel::<UnicodeMarks>::new();
    level.indent();
    level.set_last();
    let mut report = Report::new();
    let style = Colour::Red.normal();
    let entry = EntryInfo { style: Some(style), is_dir: false, link: None };
    let line = write_tree_item(&mut report, &level, &tp("/r/a"), &entry, false);
    assert_eq!(line, format!("└── {}\n", style.paint("a")));
    assert_eq!(line, "└── \u{1b}[31ma\u{1b}[0m\n");
    assert_eq!(report.to_string(), "0 directories, 1 file");
}

#[test]
fn symlink_counts_as_its_target() {
    let mut level = TreeLevel::<UnicodeMarks>::new();
    level.indent();
    let mut report = Report::new();
    let entry = EntryInfo {
        style: None,
        is_dir: false,
        link: Some(LinkTarget { text: "../elsewhere".to_string(), style: Some(Style::new().bold()), is_dir: true }),
    };
    let line = write_tree_item(&mut report, &level, &tp("/r/link"), &entry, false);
    assert_eq!(line, "├── link -> \u{1b}[1m../elsewhere\u{1b}[0m\n");
    assert_eq!(report.to_string(), "1 directory, 0 files");
}

#[test]
fn dangling_symlink_counts_as_file() {
    let mut level = TreeLevel::<UnicodeMarks>::new();
    level.indent();
    level.indent();
    level.set_last();
    let mut report = Report::new();
    let entry = EntryInfo {
        style: None,
        is_dir: false,
        link: Some(LinkTarget { text: "missing".to_string(), style: None, is_dir: false }),
    };
    let line = write_tree_item(&mut report, &level, &tp("/r/d/link"), &entry, true);
    assert_eq!(line, "|   └── /r/d/link -> missing\n");
    assert_eq!(report.to_string(), "0 directories, 1 file");
}
