use aaska::fs::{DirTree, FileMeta, FileNode, FileType, FsEntry, list_files_dir_rec};
use aaska::md::{
    FileContents, FrontmatterData, PageList, ParsedFile, ParsedFileMeta, PipelineError,
};
use aaska::pipeline::{GenerateArgs, build_pages, generate_site, index_entries, resolve_generate_args};
use aaska::time::{Date, Timestamp};

fn meta(path: &str, secs: i64) -> FileMeta {
    FileMeta {
        path: path.to_string(),
        date: Timestamp { secs, nanos: 0 },
        file_type: FileType::from_path(path),
    }
}

fn page(path: &str, secs: i64, fm_date: Option<Date>) -> ParsedFile {
    ParsedFile {
        meta: ParsedFileMeta {
            path: path.to_string(),
            date: Timestamp { secs, nanos: 0 },
            file_type: FileType::from_path(path),
        },
        contents: FileContents {
            frontmatter: fm_date.map(|d| FrontmatterData {
                title: None,
                date: Some(d),
                tags: None,
            }),
            body: String::new(),
        },
    }
}

const MTIME_2022: i64 = 1640995200; // 2022-01-01
const MTIME_2023: i64 = 1672531200; // 2023-01-01

#[test]
fn three_file_tree_renders_markdown_only() {
    // a.md has a frontmatter date of 2020-01-01; b.md none; c.txt is
    // enumerated but never rendered
    let files = vec![
        (
            meta("/src/b.md", MTIME_2023),
            "# B\n".to_string(),
        ),
        (
            meta("/src/a.md", MTIME_2023),
            "---\ndate: 2020-01-01\n---\n# A\n".to_string(),
        ),
        (meta("/src/c.txt", MTIME_2022), "plain".to_string()),
    ];
    let site = generate_site(&files).unwrap();
    assert_eq!(site.pages.len(), 2);
    assert_eq!(site.index.len(), 2);
    // a.md sorts by its frontmatter date, before b.md's modification time
    assert_eq!(site.index[0].name, "a.md.html");
    assert_eq!(site.index[1].name, "b.md.html");
    assert_eq!(site.index[0].date.secs, 1577836800); // 2020-01-01
    assert_eq!(site.index[1].date.secs, MTIME_2023);
}

#[test]
fn generate_site_aborts_on_first_bad_frontmatter() {
    let files = vec![
        (meta("/src/ok.md", 1), "fine body".to_string()),
        (meta("/src/bad.md", 2), "---\ntitle: [oops\n---\nx".to_string()),
    ];
    let err = generate_site(&files).unwrap_err();
    assert!(matches!(err, PipelineError::FrontmatterFormat(_)));
}

#[test]
fn build_pages_keeps_scan_order() {
    let files = vec![
        (meta("/s/one.md", 1), "first".to_string()),
        (meta("/s/skip.txt", 2), "never parsed".to_string()),
        (meta("/s/two.md", 3), "second".to_string()),
    ];
    let list = build_pages(&files).unwrap();
    let names: Vec<&str> = list.files.iter().map(|p| p.meta.path.as_str()).collect();
    assert_eq!(names, vec!["/s/one.md", "/s/two.md"]);
    assert_eq!(list.files[0].contents.body, "first");
}

#[test]
fn sorted_by_date_prefers_frontmatter_date() {
    // the page with the 2025 frontmatter date sorts by it even though its
    // file is older than the other page's
    let with_fm = page("/p/fm.md", MTIME_2022, Some(Date { year: 2025, month: 7, day: 29 }));
    let without = page("/p/plain.md", MTIME_2023, None);
    let list = PageList::from(vec![with_fm, without]);
    let sorted = list.sorted_by_date();
    assert_eq!(sorted[0].meta.path, "/p/plain.md");
    assert_eq!(sorted[1].meta.path, "/p/fm.md");
}

#[test]
fn sorted_by_date_falls_back_to_mtime() {
    let older = page("/p/older.md", MTIME_2022, None);
    let newer = page("/p/newer.md", MTIME_2023, None);
    let list = PageList::from(vec![newer, older]);
    let sorted = list.sorted_by_date();
    assert_eq!(sorted[0].meta.path, "/p/older.md");
    assert_eq!(sorted[1].meta.path, "/p/newer.md");
}

#[test]
fn sorted_by_date_is_stable_on_ties() {
    let first = page("/p/first.md", MTIME_2023, None);
    let second = page("/p/second.md", MTIME_2023, None);
    let third = page("/p/third.md", MTIME_2023, None);
    let list = PageList::from(vec![first, second, third]);
    let sorted = list.sorted_by_date();
    let names: Vec<&str> = sorted.iter().map(|p| p.meta.path.as_str()).collect();
    assert_eq!(names, vec!["/p/first.md", "/p/second.md", "/p/third.md"]);
}

#[test]
fn sorted_by_date_does_not_mutate_the_list() {
    let a = page("/p/a.md", MTIME_2023, None);
    let b = page("/p/b.md", MTIME_2022, None);
    let list = PageList::from(vec![a, b]);
    let _ = list.sorted_by_date();
    let again = list.sorted_by_date();
    assert_eq!(list.files[0].meta.path, "/p/a.md");
    assert_eq!(again[0].meta.path, "/p/b.md");
}

#[test]
fn index_entries_carry_titles_and_html() {
    let mut p = page("/p/post.md", MTIME_2022, None);
    p.contents.frontmatter = Some(FrontmatterData {
        title: Some("A Title".to_string()),
        date: None,
        tags: None,
    });
    p.contents.body = "# Hi".to_string();
    let list = PageList::from(vec![p]);
    let entries = index_entries(&list);
    assert_eq!(entries.len(), 1);
    assert_eq!(entries[0].name, "post.md.html");
    assert_eq!(entries[0].title, Some("A Title".to_string()));
    assert_eq!(entries[0].html.0, "<h1>Hi</h1>\n");
}

#[test]
fn scan_then_generate_end_to_end() {
    let tree = DirTree {
        path: "/src".to_string(),
        entries: vec![
            FsEntry::File(FileNode {
                path: "/src/a.md".to_string(),
                modified: Timestamp { secs: MTIME_2023, nanos: 0 },
            }),
            FsEntry::File(FileNode {
                path: "/src/b.md".to_string(),
                modified: Timestamp { secs: MTIME_2023, nanos: 0 },
            }),
            FsEntry::File(FileNode {
                path: "/src/c.txt".to_string(),
                modified: Timestamp { secs: MTIME_2022, nanos: 0 },
            }),
        ],
    };
    let records = list_files_dir_rec(&tree);
    assert_eq!(records.len(), 3);
    let files: Vec<(FileMeta, String)> = records
        .into_iter()
        .map(|record| {
            let content = if record.path == "/src/a.md" {
                "---\ndate: 2020-01-01\n---\n# A\n".to_string()
            } else {
                "body".to_string()
            };
            (record, content)
        })
        .collect();
    let site = generate_site(&files).unwrap();
    assert_eq!(site.pages.len(), 2);
    let names: Vec<&str> = site.index.iter().map(|e| e.name.as_str()).collect();
    assert_eq!(names, vec!["a.md.html", "b.md.html"]);
}

#[test]
fn resolve_args_defaults() {
    let (i, o) = resolve_generate_args(&GenerateArgs { input: None, output: None });
    assert_eq!(i, "/tmp/input");
    assert_eq!(o, "/tmp/output");
    let (i, o) = resolve_generate_args(&GenerateArgs {
        input: Some("/in".to_string()),
        output: Some("/out".to_string()),
    });
    assert_eq!(i, "/in");
    assert_eq!(o, "/out");
}

#[test]
fn file_name_helpers() {
    let m = ParsedFileMeta {
        path: "/a/b/post.md".to_string(),
        date: Timestamp { secs: 0, nanos: 0 },
        file_type: FileType::Markdown,
    };
    assert_eq!(m.file_name(), "post.md");
    assert_eq!(m.file_name_no_stem(), "post.md");
    assert_eq!(m.stem(), "post");
    let hidden = ParsedFileMeta {
        path: "/a/.gitignore".to_string(),
        date: Timestamp { secs: 0, nanos: 0 },
        file_type: FileType::Unsupported,
    };
    assert_eq!(hidden.stem(), ".gitignore");
}
