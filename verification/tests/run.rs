use mdbook_frontmatter_fix::run::{chapter_path, selected_checks};

#[test]
fn no_flag_runs_every_check() {
    let c = selected_checks(false, false, false);
    assert!(c.fm && c.html && c.links);
}

#[test]
fn one_flag_runs_its_check_only() {
    let c = selected_checks(false, true, false);
    assert!(!c.fm && c.html && !c.links);
    let c = selected_checks(false, false, true);
    assert!(!c.fm && !c.html && c.links);
    let c = selected_checks(true, false, false);
    assert!(c.fm && !c.html && !c.links);
}

#[test]
fn two_flags_run_their_checks() {
    let c = selected_checks(true, false, true);
    assert!(c.fm && !c.html && c.links);
}

#[test]
fn chapter_path_with_or_without_src_prefix() {
    assert_eq!(chapter_path("io/input_output.md"), "src/io/input_output.md");
    assert_eq!(chapter_path("src/io/input_output.md"), "src/io/input_output.md");
    assert_eq!(chapter_path("src/src/a.md"), "src/a.md");
    assert_eq!(chapter_path("srcx/a.md"), "src/srcx/a.md");
}
