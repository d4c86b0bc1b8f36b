use gitree::cli::{ColorMode, IndentationMarks};
use gitree::settings::IndentationMarks as Marks;

#[test]
fn color_mode_parsing() {
    assert_eq!(ColorMode::parse("always"), Ok(ColorMode::Always));
    assert_eq!(ColorMode::parse("never"), Ok(ColorMode::Never));
    assert_eq!(ColorMode::parse("auto"), Ok(ColorMode::Auto));
    assert_eq!(ColorMode::parse("sometimes"), Err("valid values: always, never, auto"));
    assert_eq!("never".parse::<ColorMode>(), Ok(ColorMode::Never));
    assert_eq!(ColorMode::default(), ColorMode::Auto);
    assert_eq!(ColorMode::variants(), ["always", "never", "auto"]);
    assert_eq!(ColorMode::Never.name(), "never");
}

#[test]
fn color_mode_decision() {
    assert!(ColorMode::Always.use_color_with(false));
    assert!(!ColorMode::Never.use_color_with(true));
    assert!(ColorMode::Auto.use_color_with(true));
    assert!(!ColorMode::Auto.use_color_with(false));
    assert!(ColorMode::Always.use_color());
    assert!(!ColorMode::Never.use_color());
}

#[test]
fn indentation_marks_parsing() {
    assert_eq!(IndentationMarks::parse("ascii"), Ok(IndentationMarks::Ascii));
    assert_eq!(IndentationMarks::parse("unicode"), Ok(IndentationMarks::Unicode));
    assert_eq!(IndentationMarks::parse("none"), Ok(IndentationMarks::Flat));
    assert_eq!(IndentationMarks::parse("ASCII"), Err("valid values: ascii, unicode, none"));
    assert_eq!("unicode".parse::<IndentationMarks>(), Ok(IndentationMarks::Unicode));
    assert_eq!(IndentationMarks::default(), IndentationMarks::Unicode);
    assert_eq!(IndentationMarks::variants(), ["ascii", "unicode", "none"]);
    assert_eq!(IndentationMarks::Flat.name(), "none");
}

#[test]
fn settings_indentation_values() {
    assert_eq!(Marks::from_value(Some("ascii")), Some(Marks::Ascii));
    assert_eq!(Marks::from_value(Some("unicode")), Some(Marks::Unicode));
    assert_eq!(Marks::from_value(Some("none")), None);
    assert_eq!(Marks::from_value(Some("fancy")), Some(Marks::Unicode));
    assert_eq!(Marks::from_value(None), Some(Marks::Unicode));
}
