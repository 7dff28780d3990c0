use dirscan::history::{HistoryItem, HistoryLog};

fn record(path: &str, total: i64, when: i64) -> HistoryItem {
    HistoryItem {
        path: path.to_string(),
        scan_time: when,
        total_size: total,
        size_format: format!("{} B", total),
        items: Vec::new(),
    }
}

#[test]
fn log_is_bounded_to_fifty_records() {
    let mut log = HistoryLog::new();
    for k in 0..55 {
        log.push(record(&format!("/p{}", k), k as i64, k as i64));
    }
    assert_eq!(log.len(), 50);
    // the five oldest records were dropped
    let all = log.get_history();
    assert!(all.iter().all(|r| r.scan_time >= 5));
}

#[test]
fn history_is_returned_most_recent_first() {
    let mut log = HistoryLog::new();
    log.push(record("/a", 1, 10));
    log.push(record("/b", 2, 20));
    log.push(record("/c", 3, 30));
    let all = log.get_history();
    assert_eq!(all.len(), 3);
    assert_eq!(all[0].path, "/c");
    assert_eq!(all[1].path, "/b");
    assert_eq!(all[2].path, "/a");
}

#[test]
fn query_returns_the_most_recent_match() {
    let mut log = HistoryLog::new();
    log.push(record("/a", 1, 10));
    log.push(record("/b", 2, 20));
    log.push(record("/a", 3, 30));
    let replay = log.get_history_item(&"/a".to_string()).expect("match exists");
    assert_eq!(replay.total_size, 3);
    assert_eq!(replay.total_size_formatted, "3 B");
    assert_eq!(replay.scan_time_millis, 0);
    assert_eq!(replay.path, "/a");
}

#[test]
fn query_without_match_returns_nothing() {
    let mut log = HistoryLog::new();
    log.push(record("/a", 1, 10));
    assert!(log.get_history_item(&"/zzz".to_string()).is_none());
}
