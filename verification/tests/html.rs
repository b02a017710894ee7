use mdbook_frontmatter_fix::html::{
    check_html, check_includes, check_links, include_refs, include_report, link_refs, link_report,
};

#[test]
fn unclosed_details_block_produces_diagnostic() {
    let content = "<details>\n<summary>Click me</summary>\n\nSome content.\n";
    let diags = check_html(content);
    assert_eq!(diags.len(), 1);
    assert_eq!(diags[0].code, "html::unclosed-details");
}

#[test]
fn unclosed_summary_block_produces_diagnostic() {
    let content = "<details>\n<summary>Click me\n\nSome content.\n</details>\n";
    let diags = check_html(content);
    assert_eq!(diags.len(), 1);
    assert_eq!(diags[0].code, "html::unclosed-summary");
}

#[test]
fn broken_include_path_produces_diagnostic() {
    let dir = tempfile::tempdir().unwrap();
    let file_dir = dir.path();
    let content = "{{#include ../nonexistent.rs}}\n";
    let diags = check_includes(content, file_dir);
    assert_eq!(diags.len(), 1);
    assert_eq!(diags[0].code, "html::broken-include");
}

#[test]
fn broken_internal_link_produces_diagnostic() {
    let dir = tempfile::tempdir().unwrap();
    let content = "[see this](./nonexistent.md)\n";
    let diags = check_links(content, dir.path());
    assert_eq!(diags.len(), 1);
    assert_eq!(diags[0].code, "html::broken-link");
}

#[test]
fn image_links_are_skipped() {
    let dir = tempfile::tempdir().unwrap();
    let content = "![logo](img/rust-gaps.png)\n";
    let diags = check_links(content, dir.path());
    assert!(diags.is_empty());
}

#[test]
fn balanced_blocks_produce_no_diagnostics() {
    let content = "<details>\n<summary>a</summary>\n</details>\n<details><summary>b</summary></details>";
    assert!(check_html(content).is_empty());
    assert!(check_html("no tags at all").is_empty());
}

#[test]
fn both_blocks_unclosed_are_reported_in_order() {
    let diags = check_html("<details><summary>");
    assert_eq!(diags.len(), 2);
    assert_eq!(diags[0].code, "html::unclosed-details");
    assert_eq!(diags[0].message, "unclosed <details> block");
    assert_eq!(diags[1].code, "html::unclosed-summary");
    assert_eq!(diags[1].message, "unclosed <summary> block");
}

#[test]
fn extra_closing_tag_is_reported() {
    let diags = check_html("</details>");
    assert_eq!(diags.len(), 1);
    assert_eq!(diags[0].code, "html::unclosed-details");
}

#[test]
fn include_refs_name_the_file_before_the_range() {
    let refs = include_refs("text\n{{#include  a/b.rs:1:5 }}\n  {{#include c.rs}}\n{{#include d.rs}}\r\n");
    assert_eq!(refs.len(), 2);
    assert_eq!(refs[0].inner, " a/b.rs:1:5 ");
    assert_eq!(refs[0].path, "a/b.rs");
    assert_eq!(refs[1].inner, "d.rs");
    assert_eq!(refs[1].path, "d.rs");
}

#[test]
fn include_report_reports_what_was_not_found() {
    let refs = include_refs("{{#include a.rs}}\n{{#include b.rs}}\n");
    let diags = include_report(&refs, &vec![true, false]);
    assert_eq!(diags.len(), 1);
    assert_eq!(diags[0].code, "html::broken-include");
    assert_eq!(diags[0].message, "include path does not exist: b.rs");
    assert!(include_report(&refs, &vec![true, true]).is_empty());
}

#[test]
fn link_refs_skip_external_links_and_anchors() {
    let links = link_refs("[a](http://x.org)\n[b](#top)\n[c]()\n[d](page.md#part)\n[e](img.png)\n[f](sub/](odd)");
    assert_eq!(links.len(), 3);
    assert_eq!(links[0].target, "page.md#part");
    assert_eq!(links[0].path, "page.md");
    assert_eq!(links[1].target, "img.png");
    assert_eq!(links[1].path, "img.png");
    assert_eq!(links[2].target, "sub/](odd");
    assert_eq!(links[2].path, "sub/](odd");
}

#[test]
fn link_target_runs_to_the_last_paren_of_the_line() {
    let links = link_refs("[a](foo(1).md)\n[b](x.md) and [c](y.md)\n");
    assert_eq!(links.len(), 2);
    assert_eq!(links[0].target, "foo(1).md");
    assert_eq!(links[1].target, "x.md) and [c](y.md");
}

#[test]
fn angle_brackets_around_a_target_are_dropped() {
    let links = link_refs("[a](<missing.md>)\n[b](<http://x.org>)\n[c](<>)\n[d](<only)\n");
    assert_eq!(links.len(), 2);
    assert_eq!(links[0].target, "missing.md");
    assert_eq!(links[0].path, "missing.md");
    assert_eq!(links[1].target, "<only");
}

#[test]
fn angle_bracket_link_to_missing_page_is_reported() {
    let dir = tempfile::tempdir().unwrap();
    let diags = check_links("[a](<missing.md>)\n", dir.path());
    assert_eq!(diags.len(), 1);
    assert_eq!(diags[0].code, "html::broken-link");
    assert_eq!(diags[0].message, "broken internal link: missing.md");
}

#[test]
fn link_to_existing_page_with_parens_is_not_reported() {
    let dir = tempfile::tempdir().unwrap();
    let file = tempfile::Builder::new()
        .prefix("foo(")
        .suffix(").md")
        .tempfile_in(dir.path())
        .unwrap();
    let name = file.path().file_name().unwrap().to_str().unwrap().to_string();
    let content = format!("[a]({name})\n");
    assert!(check_links(&content, dir.path()).is_empty());
}

#[test]
fn link_without_closing_paren_ends_the_line() {
    let links = link_refs("[a](open.md [b](next.md)\n[c](last.md)");
    assert_eq!(links.len(), 2);
    assert_eq!(links[0].target, "open.md [b](next.md");
    assert_eq!(links[1].target, "last.md");
}

#[test]
fn link_report_uses_extension_and_what_was_found() {
    let links = link_refs("[a](a.md)\n[b](b.png)\n[c](c)\n[d](d.markdown)");
    let exts = vec![
        Some("md".to_string()),
        Some("png".to_string()),
        None,
        Some("markdown".to_string()),
    ];
    let diags = link_report(&links, &exts, &vec![false, false, false, true]);
    assert_eq!(diags.len(), 2);
    assert_eq!(diags[0].message, "broken internal link: a.md");
    assert_eq!(diags[1].message, "broken internal link: c");
}

#[test]
fn anchor_link_to_missing_page_is_reported_with_full_target() {
    let dir = tempfile::tempdir().unwrap();
    let diags = check_links("See [x](gone.md#section).", dir.path());
    assert_eq!(diags.len(), 1);
    assert_eq!(diags[0].message, "broken internal link: gone.md#section");
}

#[test]
fn external_links_are_never_checked() {
    let dir = tempfile::tempdir().unwrap();
    assert!(check_links("[a](https://example.com/x.md)\n[b](#here)", dir.path()).is_empty());
}

#[test]
fn link_with_extension_other_than_markdown_is_skipped_even_when_missing() {
    let dir = tempfile::tempdir().unwrap();
    assert!(check_links("[pdf](missing.pdf)\n[rs](code.rs)", dir.path()).is_empty());
}

#[test]
fn link_without_extension_to_missing_file_is_reported() {
    let dir = tempfile::tempdir().unwrap();
    let diags = check_links("[dir](missing_dir)", dir.path());
    assert_eq!(diags.len(), 1);
}

#[test]
fn missing_include_message_names_the_include() {
    let dir = tempfile::tempdir().unwrap();
    let diags = check_includes("{{#include gone.rs:3}}", dir.path());
    assert_eq!(diags.len(), 1);
    assert_eq!(diags[0].message, "include path does not exist: gone.rs:3");
}

fn file_in(dir: &tempfile::TempDir, suffix: &str) -> (tempfile::NamedTempFile, String) {
    let file = tempfile::Builder::new()
        .prefix("existing")
        .suffix(suffix)
        .tempfile_in(dir.path())
        .unwrap();
    let name = file.path().file_name().unwrap().to_str().unwrap().to_string();
    (file, name)
}

#[test]
fn existing_include_is_not_reported() {
    let dir = tempfile::tempdir().unwrap();
    let (_file, name) = file_in(&dir, ".rs");
    let content = format!("{{{{#include {name}}}}}\n{{{{#include {name}:25:29}}}}\n");
    assert!(check_includes(&content, dir.path()).is_empty());
}

#[test]
fn existing_link_target_is_not_reported() {
    let dir = tempfile::tempdir().unwrap();
    let (_file, name) = file_in(&dir, ".md");
    let content = format!("[see this]({name})\n[part]({name}#part)\n");
    assert!(check_links(&content, dir.path()).is_empty());
}

#[test]
fn checks_of_joined_text_are_the_checks_of_its_parts() {
    let dir = tempfile::tempdir().unwrap();
    let a = "[a](gone.md)\n{{#include gone.rs}}\n";
    let b = "{{#include other.rs:2}}\n[b](also_gone)\n";
    let joined = format!("{a}{b}");
    let links: Vec<String> = check_links(&joined, dir.path()).into_iter().map(|d| d.message).collect();
    let mut parts: Vec<String> = check_links(a, dir.path()).into_iter().map(|d| d.message).collect();
    parts.extend(check_links(b, dir.path()).into_iter().map(|d| d.message));
    assert_eq!(links, parts);
    let incs: Vec<String> = check_includes(&joined, dir.path()).into_iter().map(|d| d.message).collect();
    let mut parts: Vec<String> = check_includes(a, dir.path()).into_iter().map(|d| d.message).collect();
    parts.extend(check_includes(b, dir.path()).into_iter().map(|d| d.message));
    assert_eq!(incs, parts);
    assert_eq!(incs.len(), 2);
}

#[test]
fn closed_details_block_changes_no_finding() {
    for content in ["", "<details>", "text </summary>", "<details><summary>x"] {
        let with_block = format!("{content}<details>\n<summary>s</summary>\n</details>\n");
        let before: Vec<&str> = check_html(content).iter().map(|d| d.code).collect();
        let after: Vec<&str> = check_html(&with_block).iter().map(|d| d.code).collect();
        assert_eq!(before, after);
    }
}
