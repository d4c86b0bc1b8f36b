use vstd::prelude::*;

use crate::utils::text_is;

verus! {

/// The drawing styles that a settings record can select.
#[derive(Debug, Clone, Copy, PartialEq, Eq, Structural)]
pub enum IndentationMarks {
    Ascii,
    Unicode,
}

impl IndentationMarks {
    /// The style that a settings value selects: "ascii" and "unicode" name
    /// theirs, "none" selects no marks, and anything else, or no value,
    /// selects the box-drawing glyphs.
    pub fn from_value(value: Option<&str>) -> (r: Option<IndentationMarks>)
        ensures
            value matches Some(v) && v@ == "ascii"@ ==> r == Some(IndentationMarks::Ascii),
            value matches Some(v) && v@ == "none"@ ==> r is None,
            !(value matches Some(v) && (v@ == "ascii"@ || v@ == "none"@)) ==> r == Some(
                IndentationMarks::Unicode,
            ),
    {
        proof {
            reveal_strlit("ascii");
            reveal_strlit("unicode");
            reveal_strlit("none");
            assert("ascii"@.len() == 5);
            assert("none"@.len() == 4);
        }
        match value {
            Some(v) => {
                if text_is(v, "ascii") {
                    Some(IndentationMarks::Ascii)
                } else if text_is(v, "unicode") {
                    Some(IndentationMarks::Unicode)
                } else if text_is(v, "none") {
                    None
                } else {
                    Some(IndentationMarks::Unicode)
                }
            },
            None => Some(IndentationMarks::Unicode),
        }
    }
}

} // verus!
