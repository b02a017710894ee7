use mdbook_frontmatter_fix::fix::{chapter_title, fix_language};

#[test]
fn title_is_last_path_component_without_md() {
    assert_eq!(chapter_title("io/input_output.md"), "input_output");
    assert_eq!(chapter_title("intro.md"), "intro");
    assert_eq!(chapter_title("a/b/notes.md.md"), "notes");
    assert_eq!(chapter_title("a/b/"), "");
    assert_eq!(chapter_title("a/readme.txt"), "readme.txt");
}

#[test]
fn excluded_lang_is_written_empty() {
    let excluded = vec!["tags".to_string(), "lang".to_string()];
    assert_eq!(fix_language(&excluded, "en"), "");
    assert_eq!(fix_language(&vec!["tags".to_string()], "de"), "de");
    assert_eq!(fix_language(&Vec::new(), "fr"), "fr");
}
