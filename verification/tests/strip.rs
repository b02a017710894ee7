use mdbook_frontmatter_fix::strip::strip_frontmatter;

#[test]
fn frontmatter_and_blank_lines_after_it_are_removed() {
    assert_eq!(
        strip_frontmatter("---\ntitle: Hello\n---\n\nBody text.\n"),
        "Body text.\n"
    );
}

#[test]
fn chapter_without_frontmatter_is_unchanged() {
    let md = "# Title\n\nText.\n";
    assert_eq!(strip_frontmatter(md), md);
}
