use dirscan::assemble::assemble_result;
use dirscan::items::{FileEntry, Item};

fn entry(path: &str, size: i64) -> FileEntry {
    FileEntry { path: path.to_string(), size }
}

fn listing() -> Vec<FileEntry> {
    vec![
        entry("/r/a/f1.txt", 100),
        entry("/r/a/b/f2.txt", 50),
        entry("/r/g.txt", 7),
    ]
}

fn find<'a>(items: &'a [Item], path: &str) -> &'a Item {
    items.iter().find(|it| it.path == path).expect("entry missing")
}

#[test]
fn totals_count_regular_files_only() {
    let root = "/r".to_string();
    let shown = "/r".to_string();
    let r = assemble_result(&listing(), &root, &shown, 12);
    assert_eq!(r.total_size, 157);
    assert_eq!(r.total_size_formatted, "157 B");
    assert_eq!(r.scan_time_millis, 12);
    assert_eq!(r.path, "/r");
}

#[test]
fn one_entry_per_directory_and_file() {
    let root = "/r".to_string();
    let r = assemble_result(&listing(), &root, &root, 0);
    assert_eq!(r.items.len(), 5);

    let a = find(&r.items, "a");
    assert!(a.is_dir);
    assert_eq!(a.size, 150);
    assert_eq!(a.name, "a");
    assert_eq!(a.size_formatted, "150 B");

    let ab = find(&r.items, "a/b");
    assert!(ab.is_dir);
    assert_eq!(ab.size, 50);
    assert_eq!(ab.name, "b");

    let f1 = find(&r.items, "a/f1.txt");
    assert!(!f1.is_dir);
    assert_eq!(f1.size, 100);
    assert_eq!(f1.name, "f1.txt");

    let f2 = find(&r.items, "a/b/f2.txt");
    assert!(!f2.is_dir);
    assert_eq!(f2.size, 50);

    let g = find(&r.items, "g.txt");
    assert!(!g.is_dir);
    assert_eq!(g.size, 7);
    assert_eq!(g.name, "g.txt");
}

#[test]
fn items_sorted_by_size_descending() {
    let root = "/r".to_string();
    let r = assemble_result(&listing(), &root, &root, 0);
    for w in r.items.windows(2) {
        assert!(w[0].size >= w[1].size);
    }
    assert_eq!(r.items[0].path, "a");
    assert_eq!(r.items[0].size, 150);
}

#[test]
fn directory_sizes_sum_files_beneath_them() {
    let root = "/r".to_string();
    let r = assemble_result(&listing(), &root, &root, 0);
    for it in r.items.iter().filter(|it| it.is_dir) {
        let prefix = format!("{}/", it.path);
        let sum: i64 = r
            .items
            .iter()
            .filter(|f| !f.is_dir && f.path.starts_with(&prefix))
            .map(|f| f.size)
            .sum();
        assert_eq!(it.size, sum);
    }
}

#[test]
fn empty_listing_gives_empty_report() {
    let root = "/r".to_string();
    let files: Vec<FileEntry> = Vec::new();
    let r = assemble_result(&files, &root, &root, 0);
    assert_eq!(r.items.len(), 0);
    assert_eq!(r.total_size, 0);
    assert_eq!(r.total_size_formatted, "0 B");
}

#[test]
fn root_without_name_works_for_filesystem_root() {
    // scanning "/" uses the empty normalized root as aggregation base
    let root = String::new();
    let files = vec![entry("/top/file.bin", 9)];
    let r = assemble_result(&files, &root, &"/".to_string(), 0);
    assert_eq!(r.items.len(), 2);
    let d = find(&r.items, "top");
    assert!(d.is_dir);
    assert_eq!(d.size, 9);
}
