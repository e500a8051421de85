use aaska::fs::FileType;

#[test]
fn classify_markdown() {
    assert_eq!(FileType::from_path("/some/dir/post.md"), FileType::Markdown);
}

#[test]
fn classify_html() {
    assert_eq!(FileType::from_path("index.html"), FileType::HTML);
}

#[test]
fn classify_plain_text() {
    assert_eq!(FileType::from_path("notes.txt"), FileType::PlainText);
}

#[test]
fn classify_no_extension() {
    assert_eq!(FileType::from_path("/dir/README"), FileType::Unsupported);
}

#[test]
fn classify_unknown_extension() {
    assert_eq!(FileType::from_path("image.png"), FileType::Unsupported);
}

#[test]
fn classify_hidden_file_has_no_extension() {
    assert_eq!(FileType::from_path("/dir/.gitignore"), FileType::Unsupported);
}

#[test]
fn classify_uses_last_extension() {
    assert_eq!(FileType::from_path("archive.md.txt"), FileType::PlainText);
}

#[test]
fn classify_is_case_sensitive() {
    assert_eq!(FileType::from_path("POST.MD"), FileType::Unsupported);
}

#[test]
fn classify_dot_in_directory_not_name() {
    assert_eq!(FileType::from_path("a.md/file"), FileType::Unsupported);
}
