use aaska::html::generate_html;
use aaska::md::{FileContents, ParsedFile, ParsedFileMeta};
use aaska::fs::FileType;
use aaska::render::generate_html_from_md;
use aaska::time::Timestamp;

#[test]
fn gfm_renders_heading() {
    let html = generate_html_from_md("# Hi").unwrap();
    assert_eq!(html, "<h1>Hi</h1>");
}

#[test]
fn gfm_renders_emphasis() {
    let html = generate_html_from_md("some *emphasis* here").unwrap();
    assert_eq!(html, "<p>some <em>emphasis</em> here</p>");
}

#[test]
fn generate_html_renders_body_and_keeps_path() {
    let file = ParsedFile {
        meta: ParsedFileMeta {
            path: "/src/post.md".to_string(),
            date: Timestamp { secs: 0, nanos: 0 },
            file_type: FileType::Markdown,
        },
        contents: FileContents { frontmatter: None, body: "# Hello".to_string() },
    };
    let generated = generate_html(&file);
    assert_eq!(generated.contents.0, "<h1>Hello</h1>\n");
    assert_eq!(generated.original_md_path, "/src/post.md");
}
