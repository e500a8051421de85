use aaska::md::{FrontmatterData, MarkdownParser, PipelineError, extract_frontmatter};
use aaska::time::Date;

#[test]
fn test_parse_frontmatter() {
    let markdown = r#"---
title: "Hello World"
date: "2025-07-29"
tags:
  - rust
  - markdown
---

# Heading

Some body content here.
"#;

    let parser = MarkdownParser::with_arena();
    let parsed = parser
        .parse_markdown(markdown)
        .expect("Should parse without error");

    assert!(parsed.frontmatter.is_some());

    let frontmatter = parsed.frontmatter.unwrap();
    assert_eq!(frontmatter.title, Some("Hello World".to_string()));
    assert_eq!(
        frontmatter.date,
        Some(Date { year: 2025, month: 7, day: 29 })
    );
    assert_eq!(
        frontmatter.tags,
        Some(vec!["rust".to_string(), "markdown".to_string()])
    );
}

#[test]
fn test_parse_no_frontmatter() {
    let markdown = r#"# Just a heading

Some body content here without frontmatter.
"#;

    let parser = MarkdownParser::with_arena();
    let parsed = parser
        .parse_markdown(markdown)
        .expect("Should parse without error");

    assert!(parsed.frontmatter.is_none());
}

#[test]
fn split_plain_text_is_trimmed_body() {
    let (fm, body) = extract_frontmatter("  hello world \n").unwrap();
    assert!(fm.is_none());
    assert_eq!(body, "hello world");
}

#[test]
fn split_only_dashes_line_is_body() {
    // a single delimiter line cannot bound a block
    let (fm, body) = extract_frontmatter("---\n").unwrap();
    assert!(fm.is_none());
    assert_eq!(body, "---");
}

#[test]
fn split_unclosed_block_is_body() {
    let text = "---\ntitle: lost\nno closing delimiter here";
    let (fm, body) = extract_frontmatter(text).unwrap();
    assert!(fm.is_none());
    assert_eq!(body, text);
}

#[test]
fn split_round_trip() {
    let doc = "---\ntitle: \"X\"\n---\nbody line";
    let (fm, body) = extract_frontmatter(doc).unwrap();
    let fm = fm.unwrap();
    assert_eq!(fm.title, Some("X".to_string()));
    assert_eq!(fm.date, None);
    assert_eq!(fm.tags, None);
    assert_eq!(body, "body line");
}

#[test]
fn split_malformed_yaml_is_format_error() {
    let doc = "---\ntitle: [unclosed\n---\nbody";
    let err = extract_frontmatter(doc).unwrap_err();
    assert!(matches!(err, PipelineError::FrontmatterFormat(_)));
}

#[test]
fn split_empty_block_is_empty_frontmatter() {
    let doc = "---\n---\nbody";
    let (fm, body) = extract_frontmatter(doc).unwrap();
    assert_eq!(
        fm,
        Some(FrontmatterData { title: None, date: None, tags: None })
    );
    assert_eq!(body, "body");
}

#[test]
fn split_unknown_keys_are_ignored() {
    let doc = "---\nauthor: someone\ntitle: kept\n---\nbody";
    let (fm, _) = extract_frontmatter(doc).unwrap();
    assert_eq!(fm.unwrap().title, Some("kept".to_string()));
}

#[test]
fn split_non_string_title_is_format_error() {
    let doc = "---\ntitle: 17\n---\nbody";
    let err = extract_frontmatter(doc).unwrap_err();
    assert!(matches!(err, PipelineError::FrontmatterFormat(_)));
}

#[test]
fn split_non_string_tag_is_format_error() {
    let doc = "---\ntags:\n  - ok\n  - 12\n---\nbody";
    let err = extract_frontmatter(doc).unwrap_err();
    assert!(matches!(err, PipelineError::FrontmatterFormat(_)));
}

#[test]
fn split_bad_date_is_format_error() {
    let doc = "---\ndate: \"not a date\"\n---\nbody";
    let err = extract_frontmatter(doc).unwrap_err();
    assert!(matches!(err, PipelineError::FrontmatterFormat(_)));
}

#[test]
fn split_unquoted_date_parses() {
    let doc = "---\ndate: 2025-07-29\n---\nbody";
    let (fm, _) = extract_frontmatter(doc).unwrap();
    assert_eq!(
        fm.unwrap().date,
        Some(Date { year: 2025, month: 7, day: 29 })
    );
}

#[test]
fn split_crlf_lines_are_normalized() {
    let doc = "---\r\ntitle: \"X\"\r\n---\r\nline one\r\nline two";
    let (fm, body) = extract_frontmatter(doc).unwrap();
    assert_eq!(fm.unwrap().title, Some("X".to_string()));
    assert_eq!(body, "line one\nline two");
}

#[test]
fn render_then_split_round_trip() {
    let doc = aaska::md::render_as_document(
        &vec!["title: \"T\"".to_string(), "date: 2020-01-01".to_string()],
        &vec!["first".to_string(), "second".to_string()],
    );
    assert_eq!(doc, "---\ntitle: \"T\"\ndate: 2020-01-01\n---\nfirst\nsecond");
    let (fm, body) = extract_frontmatter(&doc).unwrap();
    let fm = fm.unwrap();
    assert_eq!(fm.title, Some("T".to_string()));
    assert_eq!(fm.date, Some(Date { year: 2020, month: 1, day: 1 }));
    assert_eq!(body, "first\nsecond");
}

#[test]
fn split_empty_input_is_empty_body() {
    let (fm, body) = extract_frontmatter("").unwrap();
    assert!(fm.is_none());
    assert_eq!(body, "");
}
