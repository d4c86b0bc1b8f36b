use vstd::prelude::*;
use vstd::string::StringExecFns;

use crate::indent::IndentationLevel;
use crate::pathtree::TreePath;
use crate::report::Report;

verus! {

#[verifier::external_type_specification]
#[verifier::external_body]
pub struct ExStyle(ansi_term::Style);

/// Whether `part` names an entry: not the root, nor "." or "..".
pub open spec fn is_name(part: Seq<char>) -> bool {
    part != seq!['/'] && part != seq!['.'] && part != seq!['.', '.']
}

/// The label of `path`: its whole text, or else its last component, or
/// ".." when that is no name.
pub open spec fn label_text(path: TreePath, print_path: bool) -> Seq<char> {
    if print_path {
        path.text_view()
    } else if path.parts().len() > 0 && is_name(path.parts().last()) {
        path.parts().last()
    } else {
        seq!['.', '.']
    }
}

/// Whether `shown` is `text` as drawn in `style`: unchanged without a
/// style, else between the style's opening and closing codes.
pub open spec fn painted(style: Option<ansi_term::Style>, text: Seq<char>, shown: Seq<char>) -> bool {
    match style {
        None => shown == text,
        Some(_) => exists|p: Seq<char>, q: Seq<char>| shown == #[trigger] (p + text + q),
    }
}

/// The end of a line after the label: nothing, or an arrow and the
/// symbolic link's target.
pub open spec fn link_tail(link: Option<LinkTarget>, tail: Seq<char>) -> bool {
    match link {
        None => tail == Seq::<char>::empty(),
        Some(target) => exists|shown: Seq<char>|
            painted(target.style, target.text@, shown) && tail == " -> "@ + shown,
    }
}

/// Whether the entry counts as a directory: a link counts as what it
/// points to.
pub open spec fn counts_as_dir(entry: EntryInfo) -> bool {
    match entry.link {
        Some(target) => target.is_dir,
        None => entry.is_dir,
    }
}

/// Relies on ansi_term's `Style::paint` and the `Display` of what it returns,
/// which writes the style's prefix, then the text, then the style's suffix.
#[verifier::external_body]
fn paint(style: &ansi_term::Style, text: &str) -> (r: String)
    ensures
        exists|p: Seq<char>, q: Seq<char>| r@ == #[trigger] (p + text@ + q),
{
    style.paint(text).to_string()
}

/// Where a symbolic link points, as the caller resolved it.
pub struct LinkTarget {
    /// The target as the link holds it.
    pub text: String,
    pub style: Option<ansi_term::Style>,
    /// Whether the target is a directory; false when it does not exist.
    pub is_dir: bool,
}

/// What the caller found out about one entry on disk.
pub struct EntryInfo {
    pub style: Option<ansi_term::Style>,
    pub is_dir: bool,
    pub link: Option<LinkTarget>,
}

fn is_name_part(part: &String) -> (r: bool)
    ensures
        r == is_name(part@),
{
    proof {
        reveal_strlit("/");
        reveal_strlit(".");
        reveal_strlit("..");
    }
    let root = <String as StringExecFns>::from_str("/");
    let dot = <String as StringExecFns>::from_str(".");
    let dots = <String as StringExecFns>::from_str("..");
    proof {
        assert(root@ =~= seq!['/']);
        assert(dot@ =~= seq!['.']);
        assert(dots@ =~= seq!['.', '.']);
    }
    !(*part == root) && !(*part == dot) && !(*part == dots)
}

/// The label printed for `path`.
pub fn get_path_label(path: &TreePath, print_path: bool) -> (r: String)
    ensures
        r@ == label_text(*path, print_path),
{
    if print_path {
        return path.text().clone();
    }
    let parts = path.components();
    proof {
        assert(parts@.len() == path.parts().len());
    }
    if parts.len() > 0 {
        let last = &parts[parts.len() - 1];
        proof {
            assert(last@ == path.parts().last());
        }
        if is_name_part(last) {
            return last.clone();
        }
    }
    proof {
        reveal_strlit("..");
    }
    let r = <String as StringExecFns>::from_str("..");
    proof {
        assert(r@ =~= seq!['.', '.']);
    }
    r
}

/// `text` drawn in `style`.
fn paint_label(style: &Option<ansi_term::Style>, text: &String) -> (r: String)
    ensures
        painted(*style, text@, r@),
{
    match style {
        None => text.clone(),
        Some(s) => paint(s, text.as_str()),
    }
}

/// The line drawn for one entry of the walk, counted in `report` unless it
/// is the root: the indentation prefix, the label (the whole path for the
/// root or when `print_path` is set, else the file name), for a symbolic
/// link an arrow and its target, then a newline.
pub fn write_tree_item<L: IndentationLevel>(
    report: &mut Report,
    level: &L,
    path: &TreePath,
    entry: &EntryInfo,
    print_path: bool,
) -> (r: String)
    requires
        !level.at_root() ==> old(report).dirs() < usize::MAX && old(report).files() < usize::MAX,
    ensures
        exists|shown: Seq<char>, tail: Seq<char>|
            {
                &&& painted(entry.style, label_text(*path, level.at_root() || print_path), shown)
                &&& link_tail(entry.link, tail)
                &&& r@ == #[trigger] (level.text() + shown + tail + seq!['\n'])
            },
        final(report).dirs() == old(report).dirs() + if !level.at_root() && counts_as_dir(*entry) {
            1nat
        } else {
            0nat
        },
        final(report).files() == old(report).files() + if !level.at_root() && !counts_as_dir(
            *entry,
        ) {
            1nat
        } else {
            0nat
        },
{
    let toplevel = level.is_empty();
    let mut line = level.render();
    let label = get_path_label(path, toplevel || print_path);
    let shown = paint_label(&entry.style, &label);
    line.append(shown.as_str());
    proof {
        reveal_strlit(" -> ");
        reveal_strlit("\n");
    }
    let tail = match &entry.link {
        Some(target) => {
            let mut tail = <String as StringExecFns>::from_str(" -> ");
            let target_shown = paint_label(&target.style, &target.text);
            tail.append(target_shown.as_str());
            proof {
                assert(link_tail(entry.link, tail@));
            }
            tail
        },
        None => String::new(),
    };
    line.append(tail.as_str());
    let counted_dir = match &entry.link {
        Some(target) => target.is_dir,
        None => entry.is_dir,
    };
    report.add(toplevel, counted_dir);
    line.append("\n");
    proof {
        assert(line@ =~= level.text() + shown@ + tail@ + seq!['\n']);
    }
    line
}

} // verus!
