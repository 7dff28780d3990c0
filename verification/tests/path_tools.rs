use dirscan::items::FileEntry;
use dirscan::paths::{base_name, check_wf_under, normalize_root, str_starts_with};
use dirscan::scan::{acceptable_entry, listing_fits};

#[test]
fn base_name_is_the_final_segment() {
    assert_eq!(base_name("a/b/c.txt"), "c.txt");
    assert_eq!(base_name("solo"), "solo");
    assert_eq!(base_name(""), "");
}

#[test]
fn normalize_root_maps_separators_and_trims_trailing_slashes() {
    assert_eq!(normalize_root("C:\\files\\music\\"), "C:/files/music");
    assert_eq!(normalize_root("/a/b/"), "/a/b");
    assert_eq!(normalize_root("/a/b"), "/a/b");
    assert_eq!(normalize_root("/"), "");
}

#[test]
fn prefix_test_on_strings() {
    assert!(str_starts_with("/a/b", "/a"));
    assert!(str_starts_with("/a", "/a"));
    assert!(!str_starts_with("/a", "/a/b"));
    assert!(!str_starts_with("/ab", "/b"));
}

#[test]
fn well_formed_paths_under_a_root() {
    assert!(check_wf_under("/r", "/r/a"));
    assert!(check_wf_under("/r", "/r/a/b.txt"));
    assert!(!check_wf_under("/r", "/r"));
    assert!(!check_wf_under("/r", "/r/"));
    assert!(!check_wf_under("/r", "/r//a"));
    assert!(!check_wf_under("/r", "/r/a/"));
    assert!(!check_wf_under("/r", "/q/a"));
    assert!(check_wf_under("", "/a"));
}

#[test]
fn entries_are_screened_before_aggregation() {
    let root = "/r".to_string();
    let good = FileEntry { path: "/r/a".to_string(), size: 1 };
    let negative = FileEntry { path: "/r/a".to_string(), size: -1 };
    let outside = FileEntry { path: "/q/a".to_string(), size: 1 };
    assert!(acceptable_entry(&root, &good));
    assert!(!acceptable_entry(&root, &negative));
    assert!(!acceptable_entry(&root, &outside));
}

#[test]
fn listing_totals_are_checked_for_overflow() {
    let small = vec![
        FileEntry { path: "/r/a".to_string(), size: 5 },
        FileEntry { path: "/r/b".to_string(), size: 6 },
    ];
    assert!(listing_fits(&small));
    let huge = vec![
        FileEntry { path: "/r/a".to_string(), size: i64::MAX },
        FileEntry { path: "/r/b".to_string(), size: 1 },
    ];
    assert!(!listing_fits(&huge));
}
