use aaska::fs::{DirTree, FileMeta, FileNode, FileType, FsEntry, list_files_dir, list_files_dir_rec};
use aaska::time::Timestamp;

fn file(path: &str, secs: i64) -> FsEntry {
    FsEntry::File(FileNode {
        path: path.to_string(),
        modified: Timestamp { secs, nanos: 0 },
    })
}

fn sample_tree() -> DirTree {
    DirTree {
        path: "/root".to_string(),
        entries: vec![
            file("/root/a.md", 100),
            FsEntry::Dir(DirTree {
                path: "/root/sub1".to_string(),
                entries: vec![file("/root/sub1/b.md", 200), file("/root/sub1/c.txt", 300)],
            }),
            file("/root/d.html", 400),
            FsEntry::Dir(DirTree {
                path: "/root/sub2".to_string(),
                entries: vec![FsEntry::Dir(DirTree {
                    path: "/root/sub2/deep".to_string(),
                    entries: vec![file("/root/sub2/deep/e.md", 500)],
                })],
            }),
        ],
    }
}

fn paths(records: &[FileMeta]) -> Vec<String> {
    records.iter().map(|m| m.path.clone()).collect()
}

#[test]
fn flat_scan_lists_only_immediate_files() {
    let records = list_files_dir(&sample_tree());
    assert_eq!(paths(&records), vec!["/root/a.md", "/root/d.html"]);
}

#[test]
fn recursive_scan_one_record_per_file() {
    let records = list_files_dir_rec(&sample_tree());
    assert_eq!(records.len(), 5);
    let mut got = paths(&records);
    got.sort();
    assert_eq!(
        got,
        vec![
            "/root/a.md",
            "/root/d.html",
            "/root/sub1/b.md",
            "/root/sub1/c.txt",
            "/root/sub2/deep/e.md",
        ]
    );
}

#[test]
fn recursive_scan_exhausts_files_before_subdirectories() {
    let records = list_files_dir_rec(&sample_tree());
    // the directory's own files come first, then the later-listed
    // subdirectory's subtree, then the earlier one's
    assert_eq!(
        paths(&records),
        vec![
            "/root/a.md",
            "/root/d.html",
            "/root/sub2/deep/e.md",
            "/root/sub1/b.md",
            "/root/sub1/c.txt",
        ]
    );
}

#[test]
fn scan_records_carry_kind_and_mtime() {
    let records = list_files_dir_rec(&sample_tree());
    let a = records.iter().find(|m| m.path == "/root/a.md").unwrap();
    assert_eq!(a.file_type, FileType::Markdown);
    assert_eq!(a.date, Timestamp { secs: 100, nanos: 0 });
    let c = records.iter().find(|m| m.path == "/root/sub1/c.txt").unwrap();
    assert_eq!(c.file_type, FileType::PlainText);
}

#[test]
fn scan_empty_directory_yields_nothing() {
    let empty = DirTree { path: "/e".to_string(), entries: vec![] };
    assert!(list_files_dir_rec(&empty).is_empty());
    assert!(list_files_dir(&empty).is_empty());
}

#[test]
fn scan_is_deterministic() {
    let one = paths(&list_files_dir_rec(&sample_tree()));
    let two = paths(&list_files_dir_rec(&sample_tree()));
    assert_eq!(one, two);
}
