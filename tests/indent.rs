use gitree::indent::{AsciiMarks, IndentationLevel, IndentationMarks, NullLevel, TreeLevel, UnicodeMarks};

#[test]
fn glyphs() {
    assert_eq!(AsciiMarks::tab(), "    ");
    assert_eq!(AsciiMarks::bar(), "|   ");
    assert_eq!(AsciiMarks::tee(), "|-- ");
    assert_eq!(AsciiMarks::ell(), "`-- ");
    assert_eq!(UnicodeMarks::tab(), "    ");
    assert_eq!(UnicodeMarks::bar(), "|   ");
    assert_eq!(UnicodeMarks::tee(), "├── ");
    assert_eq!(UnicodeMarks::ell(), "└── ");
}

#[test]
fn tree_level_transitions() {
    let mut level = TreeLevel::<AsciiMarks>::new();
    assert!(level.is_empty());
    assert_eq!(level.render(), "");
    level.indent();
    assert!(!level.is_empty());
    assert_eq!(level.render(), "|-- ");
    level.indent();
    assert_eq!(level.render(), "|   |-- ");
    level.set_last();
    assert_eq!(level.render(), "|   `-- ");
    level.dedent();
    level.set_last();
    assert_eq!(level.render(), "`-- ");
    level.indent();
    assert_eq!(level.render(), "    |-- ");
    level.dedent();
    level.dedent();
    assert!(level.is_empty());
}

#[test]
fn null_level_draws_nothing() {
    let mut level = NullLevel::new();
    assert!(level.is_empty());
    level.indent();
    level.set_last();
    assert!(!level.is_empty());
    assert_eq!(level.render(), "");
    level.dedent();
    assert!(!level.is_empty());
}
