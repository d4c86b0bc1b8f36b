use vstd::prelude::*;

use crate::utils::text_is;

verus! {

/// When to color the output.
#[derive(Debug, Clone, Copy, PartialEq, Eq, Structural)]
pub enum ColorMode {
    Always,
    Never,
    Auto,
}

/// Relies on atty::is: whether standard output is a terminal.
#[verifier::external_body]
fn stdout_is_terminal() -> (r: bool) {
    atty::is(atty::Stream::Stdout)
}

impl Default for ColorMode {
    fn default() -> (r: Self)
        ensures
            r == ColorMode::Auto,
    {
        ColorMode::Auto
    }
}

impl ColorMode {
    /// The names that select a mode, in the order of the variants.
    pub fn variants() -> (r: [&'static str; 3])
        ensures
            r@[0]@ == "always"@,
            r@[1]@ == "never"@,
            r@[2]@ == "auto"@,
    {
        ["always", "never", "auto"]
    }

    pub fn name(&self) -> (r: &'static str)
        ensures
            *self == ColorMode::Always ==> r@ == "always"@,
            *self == ColorMode::Never ==> r@ == "never"@,
            *self == ColorMode::Auto ==> r@ == "auto"@,
    {
        match self {
            ColorMode::Always => "always",
            ColorMode::Never => "never",
            ColorMode::Auto => "auto",
        }
    }

    /// The mode that `value` names; anything else is refused with the list
    /// of valid names.
    pub fn parse(value: &str) -> (r: Result<ColorMode, &'static str>)
        ensures
            value@ == "always"@ ==> r == Ok::<ColorMode, &'static str>(ColorMode::Always),
            value@ == "never"@ ==> r == Ok::<ColorMode, &'static str>(ColorMode::Never),
            value@ == "auto"@ ==> r == Ok::<ColorMode, &'static str>(ColorMode::Auto),
            value@ != "always"@ && value@ != "never"@ && value@ != "auto"@ ==> (r matches Err(
                e,
            ) && e@ == "valid values: always, never, auto"@),
    {
        proof {
            reveal_strlit("always");
            reveal_strlit("never");
            reveal_strlit("auto");
            assert("always"@.len() == 6);
            assert("never"@.len() == 5);
            assert("auto"@.len() == 4);
        }
        if text_is(value, "always") {
            Ok(ColorMode::Always)
        } else if text_is(value, "never") {
            Ok(ColorMode::Never)
        } else if text_is(value, "auto") {
            Ok(ColorMode::Auto)
        } else {
            Err("valid values: always, never, auto")
        }
    }

    /// Whether to color, given whether standard output is a terminal.
    pub fn use_color_with(&self, stdout_is_tty: bool) -> (r: bool)
        ensures
            r == match *self {
                ColorMode::Always => true,
                ColorMode::Never => false,
                ColorMode::Auto => stdout_is_tty,
            },
    {
        match self {
            ColorMode::Always => true,
            ColorMode::Never => false,
            ColorMode::Auto => stdout_is_tty,
        }
    }

    /// Whether to color this process's output.
    pub fn use_color(&self) -> (r: bool)
        ensures
            *self == ColorMode::Always ==> r,
            *self == ColorMode::Never ==> !r,
    {
        match self {
            ColorMode::Auto => self.use_color_with(stdout_is_terminal()),
            _ => self.use_color_with(false),
        }
    }
}

impl std::str::FromStr for ColorMode {
    type Err = &'static str;

    fn from_str(value: &str) -> Result<Self, Self::Err> {
        ColorMode::parse(value)
    }
}

/// How to draw the tree: with ASCII or box-drawing glyphs, or as a flat
/// list.
#[derive(Debug, Clone, Copy, PartialEq, Eq, Structural)]
pub enum IndentationMarks {
    Ascii,
    Unicode,
    Flat,
}

impl Default for IndentationMarks {
    fn default() -> (r: Self)
        ensures
            r == IndentationMarks::Unicode,
    {
        IndentationMarks::Unicode
    }
}

impl IndentationMarks {
    /// The names that select a style, in the order of the variants.
    pub fn variants() -> (r: [&'static str; 3])
        ensures
            r@[0]@ == "ascii"@,
            r@[1]@ == "unicode"@,
            r@[2]@ == "none"@,
    {
        ["ascii", "unicode", "none"]
    }

    pub fn name(&self) -> (r: &'static str)
        ensures
            *self == IndentationMarks::Ascii ==> r@ == "ascii"@,
            *self == IndentationMarks::Unicode ==> r@ == "unicode"@,
            *self == IndentationMarks::Flat ==> r@ == "none"@,
    {
        match self {
            IndentationMarks::Ascii => "ascii",
            IndentationMarks::Unicode => "unicode",
            IndentationMarks::Flat => "none",
        }
    }

    /// The style that `value` names; anything else is refused with the list
    /// of valid names.
    pub fn parse(value: &str) -> (r: Result<IndentationMarks, &'static str>)
        ensures
            value@ == "ascii"@ ==> r == Ok::<IndentationMarks, &'static str>(IndentationMarks::Ascii),
            value@ == "unicode"@ ==> r == Ok::<IndentationMarks, &'static str>(IndentationMarks::Unicode),
            value@ == "none"@ ==> r == Ok::<IndentationMarks, &'static str>(IndentationMarks::Flat),
            value@ != "ascii"@ && value@ != "unicode"@ && value@ != "none"@ ==> (r matches Err(
                e,
            ) && e@ == "valid values: ascii, unicode, none"@),
    {
        proof {
            reveal_strlit("ascii");
            reveal_strlit("unicode");
            reveal_strlit("none");
            assert("ascii"@.len() == 5);
            assert("unicode"@.len() == 7);
            assert("none"@.len() == 4);
        }
        if text_is(value, "ascii") {
            Ok(IndentationMarks::Ascii)
        } else if text_is(value, "unicode") {
            Ok(IndentationMarks::Unicode)
        } else if text_is(value, "none") {
            Ok(IndentationMarks::Flat)
        } else {
            Err("valid values: ascii, unicode, none")
        }
    }
}

impl std::str::FromStr for IndentationMarks {
    type Err = &'static str;

    fn from_str(value: &str) -> Result<Self, Self::Err> {
        IndentationMarks::parse(value)
    }
}

} // verus!
