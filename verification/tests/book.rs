use mdbook_frontmatter_fix::book::{
    parse_excluded_fields, parse_inject_fields, parse_language, InjectFields,
};

#[test]
fn parses_language_from_book_toml() {
    let content = "[book]\ntitle = \"My Book\"\nlanguage = \"en\"\n";
    let lang = parse_language(content);
    assert_eq!(lang, "en");
}

#[test]
fn missing_language_defaults_to_en() {
    let content = "[book]\ntitle = \"My Book\"\nauthors = [\"Tom\"]\n";
    let lang = parse_language(content);
    assert_eq!(lang, "en");
}

#[test]
fn parses_exclude_fields_from_fmf_toml() {
    let content = "exclude_fields = [\"author\", \"lang\"]\n";
    let excluded = parse_excluded_fields(content);
    assert_eq!(excluded, vec!["author", "lang"]);
}

#[test]
fn missing_fmf_section_returns_empty_excluded_fields() {
    let content = "[book]\ntitle = \"My Book\"\n";
    let excluded = parse_excluded_fields(content);
    assert_eq!(excluded, [] as [std::string::String; 0]);
}

#[test]
fn parses_custom_inject_fields() {
    let content = "[inject]\nversion = \"1.0\"\nstatus = \"draft\"\n";
    let fields = parse_inject_fields(content);
    assert_eq!(fields.get("version"), Some(&"1.0".to_string()));
    assert_eq!(fields.get("status"), Some(&"draft".to_string()));
}

#[test]
fn language_other_than_english_is_read() {
    assert_eq!(parse_language("[book]\nlanguage = \"de\"\n"), "de");
    assert_eq!(parse_language("language=fr"), "fr");
}

#[test]
fn first_language_line_wins() {
    assert_eq!(parse_language("language = \"es\"\nlanguage = \"it\"\n"), "es");
}

#[test]
fn language_value_stops_at_second_equals() {
    assert_eq!(parse_language("language = \"pt\" = x\n"), "pt");
}

#[test]
fn language_line_without_equals_is_skipped() {
    assert_eq!(parse_language("language\nlanguage = nl\n"), "nl");
}

#[test]
fn indented_language_line_is_not_read() {
    assert_eq!(parse_language("  language = \"sv\"\n"), "en");
}

#[test]
fn language_with_crlf_and_unicode_space_is_trimmed() {
    assert_eq!(parse_language("language =\u{3000}\"ja\"\u{a0}\r\n"), "ja");
}

#[test]
fn empty_language_value_is_empty() {
    assert_eq!(parse_language("language = \"\"\n"), "");
}

#[test]
fn excluded_fields_drop_empty_pieces() {
    assert_eq!(
        parse_excluded_fields("exclude_fields = [\"date\", , \"tags\",]\n"),
        vec!["date", "tags"]
    );
}

#[test]
fn excluded_fields_line_may_be_indented() {
    assert_eq!(
        parse_excluded_fields("[fmf]\n   exclude_fields = [lang]\n"),
        vec!["lang"]
    );
}

#[test]
fn excluded_fields_without_equals_is_skipped() {
    assert_eq!(
        parse_excluded_fields("exclude_fields\nexclude_fields = [\"title\"]\n"),
        vec!["title"]
    );
}

#[test]
fn excluded_fields_empty_list() {
    assert_eq!(
        parse_excluded_fields("exclude_fields = []\n"),
        [] as [String; 0]
    );
}

#[test]
fn inject_section_ends_at_next_table() {
    let fields = parse_inject_fields("status = \"x\"\n[inject]\nlicense = \"MIT\"\n[other]\nfeed = \"no\"\n");
    assert_eq!(fields.get("license"), Some(&"MIT".to_string()));
    assert_eq!(fields.get("status"), None);
    assert_eq!(fields.get("feed"), None);
    assert_eq!(fields.entries().len(), 1);
}

#[test]
fn inject_later_value_wins() {
    let fields = parse_inject_fields("[inject]\nstatus = \"draft\"\nstatus = \"final\"\n");
    assert_eq!(fields.get("status"), Some(&"final".to_string()));
    assert_eq!(fields.entries().len(), 1);
}

#[test]
fn inject_value_keeps_text_after_second_equals() {
    let fields = parse_inject_fields("[inject]\n  key = a=b \n");
    assert_eq!(fields.get("key"), Some(&"a=b".to_string()));
}

#[test]
fn inject_header_may_be_indented_and_lines_without_equals_are_skipped() {
    let fields = parse_inject_fields("  [inject]  \nnothing here\nx = 1\n");
    assert_eq!(fields.get("x"), Some(&"1".to_string()));
    assert_eq!(fields.entries().len(), 1);
}

#[test]
fn no_inject_header_injects_nothing() {
    let fields = parse_inject_fields("version = \"1.0\"\n");
    assert_eq!(fields.entries().len(), 0);
    assert_eq!(fields.get("version"), None);
}

#[test]
fn inject_fields_insert_replaces_value() {
    let mut fields = InjectFields::new();
    assert_eq!(fields.get("a"), None);
    fields.insert("a".to_string(), "1".to_string());
    fields.insert("b".to_string(), "2".to_string());
    fields.insert("a".to_string(), "3".to_string());
    assert_eq!(fields.get("a"), Some(&"3".to_string()));
    assert_eq!(fields.get("b"), Some(&"2".to_string()));
    assert_eq!(fields.entries().len(), 2);
}

#[test]
fn inject_comment_lines_are_not_fields() {
    let fields = parse_inject_fields("[inject]\nstatus = \"draft\"\n# feed = \"exclude\"\n   #x=1\n");
    assert_eq!(fields.get("status"), Some(&"draft".to_string()));
    assert_eq!(fields.get("# feed"), None);
    assert_eq!(fields.entries().len(), 1);
}
