use std::time::{Duration, SystemTime, UNIX_EPOCH};
use dirtrack::index::CachedFile;
use dirtrack::trend::{build_entry, deltas_for_root, entries_for_root, trend_deltas, TrendEntry};

fn nanos(t: SystemTime) -> i128 {
    match t.duration_since(UNIX_EPOCH) {
        Ok(d) => d.as_nanos() as i128,
        Err(e) => -(e.duration().as_nanos() as i128),
    }
}

fn entry(root: &str, walked_at: SystemTime, file_count: u64, total_size: u64) -> TrendEntry {
    TrendEntry { root: root.to_string(), walked_at: nanos(walked_at), file_count, total_size }
}

#[test]
fn test_append_and_read_round_trip() {
    let root = "/tmp/trend/project";
    let mut log: Vec<TrendEntry> = Vec::new();

    let t1 = SystemTime::now() - Duration::from_secs(3600);
    let t2 = SystemTime::now();

    log.push(entry(root, t1, 10, 1000));
    log.push(entry(root, t2, 12, 1200));

    let entries = entries_for_root(log, root);
    assert_eq!(entries.len(), 2);
    assert_eq!(entries[0].file_count, 10);
    assert_eq!(entries[1].file_count, 12);
}

#[test]
fn test_entries_for_root_filters_other_roots() {
    let root_a = "/tmp/trend/a";
    let root_b = "/tmp/trend/b";
    let log = vec![entry(root_a, SystemTime::now(), 5, 500), entry(root_b, SystemTime::now(), 7, 700)];

    let entries = entries_for_root(log, root_a);
    assert_eq!(entries.len(), 1);
    assert_eq!(entries[0].file_count, 5);
}

#[test]
fn test_deltas_for_root_computes_correct_differences() {
    let root = "/tmp/trend/project";
    let t1 = SystemTime::now() - Duration::from_secs(7200);
    let t2 = SystemTime::now() - Duration::from_secs(3600);
    let t3 = SystemTime::now();

    let log = vec![entry(root, t1, 10, 1000), entry(root, t2, 15, 1500), entry(root, t3, 12, 900)];

    let deltas = deltas_for_root(log, root).unwrap();
    assert_eq!(deltas.len(), 2);

    assert_eq!(deltas[0].file_count_delta, 5);
    assert_eq!(deltas[0].total_size_delta, 500);

    assert_eq!(deltas[1].file_count_delta, -3);
    assert_eq!(deltas[1].total_size_delta, -600);
}

#[test]
fn test_deltas_empty_with_fewer_than_two_entries() {
    let root = "/tmp/trend/project";
    let log = vec![entry(root, SystemTime::now(), 1, 100)];
    let deltas = deltas_for_root(log, root).unwrap();
    assert!(deltas.is_empty(), "a single entry should produce no deltas");
}

#[test]
fn test_read_log_missing_file_returns_empty() {
    let entries = entries_for_root(Vec::new(), "/tmp/trend/project");
    assert!(entries.is_empty());
}

#[test]
fn entries_sorted_oldest_first_and_roots_compared_as_paths() {
    let log = vec![
        TrendEntry { root: "/p/".to_string(), walked_at: 300, file_count: 3, total_size: 0 },
        TrendEntry { root: "/q".to_string(), walked_at: 100, file_count: 9, total_size: 0 },
        TrendEntry { root: "/p".to_string(), walked_at: 100, file_count: 1, total_size: 0 },
        TrendEntry { root: "/p/./".to_string(), walked_at: 200, file_count: 2, total_size: 0 },
        TrendEntry { root: "/p".to_string(), walked_at: 100, file_count: 4, total_size: 0 },
    ];
    let entries = entries_for_root(log, "/p");
    let counts: Vec<u64> = entries.iter().map(|e| e.file_count).collect();
    assert_eq!(counts, vec![1, 4, 2, 3]);
}

#[test]
fn deltas_sum_to_first_to_last_change() {
    let log = vec![
        TrendEntry { root: "/r".to_string(), walked_at: 1, file_count: 10, total_size: 1000 },
        TrendEntry { root: "/r".to_string(), walked_at: 2, file_count: 3, total_size: 4000 },
        TrendEntry { root: "/r".to_string(), walked_at: 3, file_count: 8, total_size: 50 },
        TrendEntry { root: "/r".to_string(), walked_at: 4, file_count: 20, total_size: 700 },
    ];
    let deltas = trend_deltas(&log);
    assert_eq!(deltas.len(), 3);
    let files: i64 = deltas.iter().map(|d| d.file_count_delta).sum();
    let size: i64 = deltas.iter().map(|d| d.total_size_delta).sum();
    assert_eq!(files, 20 - 10);
    assert_eq!(size, 700 - 1000);
    for w in deltas.windows(2) {
        assert_eq!(w[0].to.walked_at, w[1].from.walked_at);
    }
}

#[test]
fn deltas_read_counts_as_i64_and_refuse_overflow() {
    let e = |t: i128, c: u64| TrendEntry { root: "/r".to_string(), walked_at: t, file_count: c, total_size: 0 };
    let ok = deltas_for_root(vec![e(1, 0), e(2, i64::MAX as u64)], "/r").unwrap();
    assert_eq!(ok[0].file_count_delta, i64::MAX);
    let wrapped = deltas_for_root(vec![e(1, 1u64 << 63), e(2, (1u64 << 63) + 5)], "/r").unwrap();
    assert_eq!(wrapped[0].file_count_delta, 5);
    assert!(deltas_for_root(vec![e(1, i64::MAX as u64), e(2, 1u64 << 63)], "/r").is_none());
}

#[test]
fn build_entry_counts_and_sums_files() {
    let files = vec![
        CachedFile { path: "/r/a".to_string(), mtime: 0, size: 10 },
        CachedFile { path: "/r/b".to_string(), mtime: 0, size: 32 },
    ];
    let e = build_entry("/r", 77, &files);
    assert_eq!(e.root, "/r");
    assert_eq!(e.walked_at, 77);
    assert_eq!(e.file_count, 2);
    assert_eq!(e.total_size, 42);
}
