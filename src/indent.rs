use std::marker::PhantomData;
use vstd::prelude::*;
use vstd::string::StringExecFns;

verus! {

/// The four glyphs that draw one column of a tree.
pub trait IndentationMarks {
    /// Padding under an ancestor that was the last of its siblings.
    spec fn tab_text() -> Seq<char>;

    /// Padding under an ancestor that still has siblings below it.
    spec fn bar_text() -> Seq<char>;

    /// Branch to an entry that has siblings below it.
    spec fn tee_text() -> Seq<char>;

    /// Branch to the last entry of its directory.
    spec fn ell_text() -> Seq<char>;

    fn tab() -> (r: &'static str)
        ensures
            r@ == Self::tab_text(),
    ;

    fn bar() -> (r: &'static str)
        ensures
            r@ == Self::bar_text(),
    ;

    fn tee() -> (r: &'static str)
        ensures
            r@ == Self::tee_text(),
    ;

    fn ell() -> (r: &'static str)
        ensures
            r@ == Self::ell_text(),
    ;
}

/// Glyphs made of plain ASCII characters.
pub struct AsciiMarks;

impl IndentationMarks for AsciiMarks {
    open spec fn tab_text() -> Seq<char> {
        seq![' ', ' ', ' ', ' ']
    }

    open spec fn bar_text() -> Seq<char> {
        seq!['|', ' ', ' ', ' ']
    }

    open spec fn tee_text() -> Seq<char> {
        seq!['|', '-', '-', ' ']
    }

    open spec fn ell_text() -> Seq<char> {
        seq!['`', '-', '-', ' ']
    }

    fn tab() -> (r: &'static str) {
        proof {
            reveal_strlit("    ");
        }
        "    "
    }

    fn bar() -> (r: &'static str) {
        proof {
            reveal_strlit("|   ");
        }
        "|   "
    }

    fn tee() -> (r: &'static str) {
        proof {
            reveal_strlit("|-- ");
        }
        "|-- "
    }

    fn ell() -> (r: &'static str) {
        proof {
            reveal_strlit("`-- ");
        }
        "`-- "
    }
}

/// Box-drawing glyphs; the paddings are those of [`AsciiMarks`].
pub struct UnicodeMarks;

impl IndentationMarks for UnicodeMarks {
    open spec fn tab_text() -> Seq<char> {
        AsciiMarks::tab_text()
    }

    open spec fn bar_text() -> Seq<char> {
        AsciiMarks::bar_text()
    }

    open spec fn tee_text() -> Seq<char> {
        seq!['\u{251c}', '\u{2500}', '\u{2500}', ' ']
    }

    open spec fn ell_text() -> Seq<char> {
        seq!['\u{2514}', '\u{2500}', '\u{2500}', ' ']
    }

    fn tab() -> (r: &'static str) {
        AsciiMarks::tab()
    }

    fn bar() -> (r: &'static str) {
        AsciiMarks::bar()
    }

    fn tee() -> (r: &'static str) {
        proof {
            reveal_strlit("\u{251c}\u{2500}\u{2500} ");
        }
        "\u{251c}\u{2500}\u{2500} "
    }

    fn ell() -> (r: &'static str) {
        proof {
            reveal_strlit("\u{2514}\u{2500}\u{2500} ");
        }
        "\u{2514}\u{2500}\u{2500} "
    }
}

/// The paddings drawn under the given ancestors, outermost first.
pub open spec fn pads_text<M: IndentationMarks>(ancestors: Seq<bool>) -> Seq<char>
    decreases ancestors.len(),
{
    if ancestors.len() == 0 {
        Seq::empty()
    } else {
        pads_text::<M>(ancestors.drop_last()) + if ancestors.last() {
            M::tab_text()
        } else {
            M::bar_text()
        }
    }
}

/// The prefix drawn before an entry whose open levels are `marks`: one
/// padding per ancestor level, then a corner for a last sibling or a tee.
pub open spec fn level_text<M: IndentationMarks>(marks: Seq<bool>) -> Seq<char> {
    if marks.len() == 0 {
        Seq::empty()
    } else {
        pads_text::<M>(marks.drop_last()) + if marks.last() {
            M::ell_text()
        } else {
            M::tee_text()
        }
    }
}

/// Nesting state of a depth-first walk: one flag per open level, true where
/// the branch at that level is the last of its siblings.
pub trait IndentationLevel {
    /// The flags of the open levels, outermost first.
    spec fn marks(&self) -> Seq<bool>;

    /// Whether the entry about to be drawn is the walk's root.
    spec fn at_root(&self) -> bool;

    /// The prefix that this state draws.
    spec fn text(&self) -> Seq<char>;

    /// Whether closing every open level brings the state back to the root;
    /// otherwise, once a level has been opened, the state never is at the
    /// root again.
    spec fn closes_to_root() -> bool;

    /// Opens a level, not yet the last one.
    fn indent(&mut self)
        ensures
            final(self).marks() == old(self).marks().push(false),
            !final(self).at_root(),
    ;

    /// Closes the innermost level.
    fn dedent(&mut self)
        requires
            old(self).marks().len() > 0,
        ensures
            final(self).marks() == old(self).marks().drop_last(),
            final(self).at_root() == (old(self).at_root() || (Self::closes_to_root()
                && final(self).marks().len() == 0)),
    ;

    /// Marks the innermost level as the last of its siblings.
    fn set_last(&mut self)
        requires
            old(self).marks().len() > 0,
        ensures
            final(self).marks() == old(self).marks().update(old(self).marks().len() - 1, true),
            final(self).at_root() == old(self).at_root(),
    ;

    fn is_empty(&self) -> (r: bool)
        ensures
            r == self.at_root(),
    ;

    /// Draws the prefix.
    fn render(&self) -> (r: String)
        ensures
            r@ == self.text(),
    ;
}

/// A level that draws tree glyphs of the style `M`.
pub struct TreeLevel<M> {
    items: Vec<bool>,
    phantom: PhantomData<M>,
}

impl<M> Default for TreeLevel<M> {
    fn default() -> (r: Self)
        ensures
            r.items_view() == Seq::<bool>::empty(),
    {
        Self::with_capacity(16)
    }
}

impl<M> TreeLevel<M> {
    pub closed spec fn items_view(&self) -> Seq<bool> {
        self.items@
    }

    pub fn new() -> (r: Self)
        ensures
            r.items_view() == Seq::<bool>::empty(),
    {
        Self::default()
    }

    pub fn with_capacity(capacity: usize) -> (r: Self)
        ensures
            r.items_view() == Seq::<bool>::empty(),
    {
        TreeLevel { items: Vec::with_capacity(capacity), phantom: PhantomData }
    }
}

impl<M: IndentationMarks> IndentationLevel for TreeLevel<M> {
    open spec fn marks(&self) -> Seq<bool> {
        self.items_view()
    }

    open spec fn at_root(&self) -> bool {
        self.items_view().len() == 0
    }

    open spec fn text(&self) -> Seq<char> {
        level_text::<M>(self.items_view())
    }

    open spec fn closes_to_root() -> bool {
        true
    }

    fn indent(&mut self) {
        self.items.push(false);
    }

    fn dedent(&mut self) {
        self.items.pop();
    }

    fn set_last(&mut self) {
        let last = self.items.len() - 1;
        self.items.set(last, true);
    }

    fn is_empty(&self) -> (r: bool) {
        self.items.len() == 0
    }

    fn render(&self) -> (r: String) {
        let mut out = String::new();
        let n = self.items.len();
        if n == 0 {
            return out;
        }
        let mut i: usize = 0;
        while i < n - 1
            invariant
                n == self.items@.len(),
                n > 0,
                i <= n - 1,
                out@ == pads_text::<M>(self.items@.take(i as int)),
            decreases n - 1 - i,
        {
            let pad = if self.items[i] {
                M::tab()
            } else {
                M::bar()
            };
            out.append(pad);
            assert(self.items@.take(i + 1).drop_last() =~= self.items@.take(i as int));
            i = i + 1;
        }
        let glyph = if self.items[n - 1] {
            M::ell()
        } else {
            M::tee()
        };
        out.append(glyph);
        assert(self.items@.drop_last() =~= self.items@.take(n - 1));
        out
    }
}

/// A level that draws nothing, for a flat listing; it only tells whether
/// the walk has left the root.
pub struct NullLevel {
    empty: bool,
    levels: Ghost<Seq<bool>>,
}

impl Default for NullLevel {
    fn default() -> (r: Self)
        ensures
            r.at_root(),
            r.marks() == Seq::<bool>::empty(),
    {
        NullLevel { empty: true, levels: Ghost(Seq::empty()) }
    }
}

impl NullLevel {
    pub fn new() -> (r: Self)
        ensures
            r.at_root(),
            r.marks() == Seq::<bool>::empty(),
    {
        Self::default()
    }
}

impl IndentationLevel for NullLevel {
    closed spec fn marks(&self) -> Seq<bool> {
        self.levels@
    }

    closed spec fn at_root(&self) -> bool {
        self.empty
    }

    open spec fn text(&self) -> Seq<char> {
        Seq::empty()
    }

    open spec fn closes_to_root() -> bool {
        false
    }

    fn indent(&mut self) {
        self.empty = false;
        self.levels = Ghost(self.levels@.push(false));
    }

    fn dedent(&mut self) {
        self.levels = Ghost(self.levels@.drop_last());
    }

    fn set_last(&mut self) {
        self.levels = Ghost(self.levels@.update(self.levels@.len() - 1, true));
    }

    fn is_empty(&self) -> (r: bool) {
        self.empty
    }

    fn render(&self) -> (r: String) {
        String::new()
    }
}

} // verus!
