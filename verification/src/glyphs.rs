//! The connector glyphs.
//!
//! A [`GlyphSet`] holds the four strings used to draw the tree: the connector
//! for a final child (`corner`), the connector for a non-final child
//! (`branch`), the continuation column under an ancestor that was itself
//! final (`blank`), and the continuation column under an ancestor that was
//! not (`vertical`). Two variants are provided: the Unicode box-drawing
//! default and an ASCII fallback.

use vstd::prelude::*;
use vstd::string::StringExecFns;

verus! {

/// The four strings used to draw connectors and continuation columns.
pub struct GlyphSet {
    /// Own-level connector of the last child among its siblings.
    pub corner: String,
    /// Own-level connector of a child that has later siblings.
    pub branch: String,
    /// Continuation column under an ancestor that was the last sibling.
    pub blank: String,
    /// Continuation column under an ancestor with later siblings.
    pub vertical: String,
}

impl GlyphSet {
    /// The default glyphs, drawn with Unicode box-drawing characters.
    pub fn unicode() -> (g: GlyphSet)
        ensures
            g.corner@ == "└───"@,
            g.branch@ == "├───"@,
            g.blank@ == "    "@,
            g.vertical@ == "│   "@,
    {
        GlyphSet {
            corner: String::from_str("└───"),
            branch: String::from_str("├───"),
            blank: String::from_str("    "),
            vertical: String::from_str("│   "),
        }
    }

    /// The ASCII fallback glyphs.
    pub fn ascii() -> (g: GlyphSet)
        ensures
            g.corner@ == "\\---"@,
            g.branch@ == "+---"@,
            g.blank@ == "    "@,
            g.vertical@ == "|   "@,
    {
        GlyphSet {
            corner: String::from_str("\\---"),
            branch: String::from_str("+---"),
            blank: String::from_str("    "),
            vertical: String::from_str("|   "),
        }
    }

    /// Picks the ASCII variant when `use_ascii` is set, the Unicode one
    /// otherwise.
    pub fn select(use_ascii: bool) -> (g: GlyphSet)
        ensures
            use_ascii ==> g.corner@ == "\\---"@ && g.branch@ == "+---"@ && g.blank@ == "    "@
                && g.vertical@ == "|   "@,
            !use_ascii ==> g.corner@ == "└───"@ && g.branch@ == "├───"@ && g.blank@ == "    "@
                && g.vertical@ == "│   "@,
    {
        if use_ascii {
            GlyphSet::ascii()
        } else {
            GlyphSet::unicode()
        }
    }
}

} // verus!
