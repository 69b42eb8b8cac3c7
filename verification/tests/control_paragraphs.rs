use debian::control::{ControlFile, ControlParagraph, ControlValue};

#[test]
fn value_kind_follows_the_key() {
    assert!(matches!(
        ControlValue::new("Source", "foo".to_string()),
        ControlValue::Simple(_)
    ));
    assert!(matches!(
        ControlValue::new("Build-Depends", "bar".to_string()),
        ControlValue::Folded(_)
    ));
    assert!(matches!(
        ControlValue::new("Description", "text".to_string()),
        ControlValue::MultiLine(_)
    ));
    assert!(matches!(
        ControlValue::new("X-Unknown", "v".to_string()),
        ControlValue::Simple(_)
    ));
}

#[test]
fn paragraph_entries_are_found_and_updated() {
    let mut p = ControlParagraph::new();
    assert!(!p.has_entry("Source"));
    p.add_entry("Source", "foo".to_string());
    p.add_entry("Maintainer", "Jane Doe <jane@example.org>".to_string());
    assert!(p.has_entry("Source"));
    assert_eq!(p.get_entry("Source"), Some("foo"));
    assert_eq!(p.get_entry("Missing"), None);

    // updating an existing entry replaces it in place
    assert!(p.update_entry("Source", "bar".to_string()));
    assert_eq!(p.get_entry("Source"), Some("bar"));

    // updating an absent entry appends it
    assert!(!p.update_entry("Section", "utils".to_string()));
    assert_eq!(p.get_entry("Section"), Some("utils"));
}

#[test]
fn lines_fold_into_paragraphs() {
    let lines: Vec<String> = [
        "Source: foo\n",
        "Build-Depends: bar,\n",
        " baz\n",
        "\n",
        "Package: foo-bin\n",
        "Architecture: any\n",
    ]
    .iter()
    .map(|s| s.to_string())
    .collect();
    let cf = ControlFile::from_lines(&lines);
    let paragraphs = cf.get_paragraphs();
    assert_eq!(paragraphs.len(), 2);
    assert_eq!(paragraphs[0].get_entry("Source"), Some("foo"));
    assert_eq!(paragraphs[0].get_entry("Build-Depends"), Some("bar,\n baz"));
    assert_eq!(paragraphs[1].get_entry("Package"), Some("foo-bin"));
    assert_eq!(paragraphs[1].get_entry("Architecture"), Some("any"));
}

#[test]
fn last_paragraph_needs_no_blank_line() {
    let lines: Vec<String> = ["Source: foo\n"].iter().map(|s| s.to_string()).collect();
    let cf = ControlFile::from_lines(&lines);
    assert_eq!(cf.get_paragraphs().len(), 1);
    assert_eq!(cf.get_paragraphs()[0].get_entry("Source"), Some("foo"));
}

#[test]
fn control_file_renders_back_to_text() {
    let mut p1 = ControlParagraph::new();
    p1.add_entry("Source", "foo".to_string());
    p1.add_entry("Maintainer", "Jane Doe <jane@example.org>".to_string());
    let mut p2 = ControlParagraph::new();
    p2.add_entry("Package", "foo-bin".to_string());
    let mut cf = ControlFile::new();
    cf.add_paragraph(p1);
    cf.add_paragraph(p2);
    assert_eq!(
        cf.to_string(),
        "Source: foo\nMaintainer: Jane Doe <jane@example.org>\n\nPackage: foo-bin\n\n"
    );
}

#[test]
fn reading_rendered_text_gives_the_paragraphs_back() {
    let mut p = ControlParagraph::new();
    p.add_entry("Source", "foo".to_string());
    p.add_entry("Section", "utils".to_string());
    let mut cf = ControlFile::new();
    cf.add_paragraph(p);
    let text = cf.to_string();
    let lines: Vec<String> = text
        .split_inclusive('\n')
        .map(|s| s.to_string())
        .collect();
    let again = ControlFile::from_lines(&lines);
    assert_eq!(again.get_paragraphs().len(), 1);
    assert_eq!(again.get_paragraphs()[0].get_entry("Source"), Some("foo"));
    assert_eq!(again.get_paragraphs()[0].get_entry("Section"), Some("utils"));
}
