//! Removing a chapter's frontmatter.
use vstd::prelude::*;

verus! {

/// What `mdbook_frontmatter_strip::strip_frontmatter` gives for a chapter.
pub uninterp spec fn frontmatter_stripped(content: Seq<char>) -> Seq<char>;

/// Calls `mdbook_frontmatter_strip::strip_frontmatter`: the chapter without
/// its fenced YAML frontmatter and the blank lines after it, or the chapter
/// unchanged where it has none. The result is named, not stated; the one
/// fact stated of it is that it is an ending of `content`, since the crate
/// hands back either `content` itself or a slice of it that runs to its end.
#[verifier::external_body]
fn chapter_body(content: &str) -> (r: &str)
    ensures
        r@ == frontmatter_stripped(content@),
        r@.is_suffix_of(content@),
{
    mdbook_frontmatter_strip::strip_frontmatter(content)
}

/// The chapter without its frontmatter.
pub fn strip_frontmatter(content: &str) -> (r: String)
    ensures
        r@ == frontmatter_stripped(content@),
        r@.is_suffix_of(content@),
{
    chapter_body(content).to_owned()
}

} // verus!
