use std::path::PathBuf;
use std::time::{Duration, SystemTime, UNIX_EPOCH};
use dirtrack::aggregate::FindMatch;
use dirtrack::index::CachedFile;
use dirtrack::output::{
    build_open_choices, build_summary_groups, build_verbose_groups, find_result_groups, format_cache_age,
    format_relative_time, format_relative_time_at, format_size_delta, format_summary_line,
    format_summary_line_at, open_prompt_line_at, project_name, relative_path, trend_row_at, OpenChoice,
    format_change_count, verbose_path_cell,
};
use dirtrack::scanner::{DirResult, FileEntry};
use dirtrack::trend::{TrendDelta, TrendEntry};

fn nanos(t: SystemTime) -> i128 {
    match t.duration_since(UNIX_EPOCH) {
        Ok(d) => d.as_nanos() as i128,
        Err(e) => -(e.duration().as_nanos() as i128),
    }
}

fn path_str(p: PathBuf) -> String {
    p.to_string_lossy().to_string()
}

#[test]
fn test_relative_time_minutes() {
    let t = nanos(SystemTime::now() - Duration::from_secs(90));
    assert_eq!(format_relative_time(t), "1m ago");
}

#[test]
fn test_relative_time_hours() {
    let t = nanos(SystemTime::now() - Duration::from_secs(7300));
    assert_eq!(format_relative_time(t), "2h ago");
}

#[test]
fn test_relative_time_days() {
    let t = nanos(SystemTime::now() - Duration::from_secs(86400 * 3 + 100));
    assert_eq!(format_relative_time(t), "3d ago");
}

#[test]
fn test_summary_line_format() {
    let t = nanos(SystemTime::now() - Duration::from_secs(3700));
    let line = format_summary_line(1, "dram-quest", 5, t);
    assert!(line.contains("dram-quest"));
    assert!(line.contains("5"));
    assert!(line.contains("1h ago"));
}

fn dir_result(root: &str, project: &str, mtime: SystemTime) -> DirResult {
    DirResult {
        dir: path_str(PathBuf::from(root).join(project)),
        files: vec![FileEntry {
            name: ".env".to_string(),
            path: path_str(PathBuf::from(root).join(project).join(".env")),
            mtime: nanos(mtime),
            size: 1,
            type_label: "secrets".to_string(),
        }],
    }
}

#[test]
fn test_summary_groups_sorted_by_last_modified() {
    let root = "/workspace";
    let now = SystemTime::now();
    let results = vec![
        dir_result(root, "older", now - Duration::from_secs(86400 * 3)),
        dir_result(root, "newest", now - Duration::from_secs(3600)),
        dir_result(root, "middle", now - Duration::from_secs(86400)),
    ];

    let groups = build_summary_groups(&results, root);
    let names: Vec<&str> = groups.iter().map(|(name, _, _)| name.as_str()).collect();

    assert_eq!(names, vec!["newest", "middle", "older"]);
}

#[test]
fn test_verbose_groups_sorted_by_project_recency() {
    let root = "/workspace";
    let now = SystemTime::now();
    let results = vec![
        dir_result(root, "older", now - Duration::from_secs(86400 * 3)),
        dir_result(root, "newest", now - Duration::from_secs(3600)),
        dir_result(root, "middle", now - Duration::from_secs(86400)),
    ];

    let groups = build_verbose_groups(&results, root);
    let names: Vec<&str> = groups.iter().map(|(name, _)| name.as_str()).collect();
    assert_eq!(names, vec!["newest", "middle", "older"]);
}

#[test]
fn test_open_choices_use_project_roots_in_summary_order() {
    let root = "/workspace";
    let now = SystemTime::now();
    let results = vec![
        dir_result(root, "beta", now - Duration::from_secs(7200)),
        dir_result(root, "alpha", now - Duration::from_secs(1800)),
    ];

    let choices = build_open_choices(&results, root);
    assert_eq!(choices.len(), 2);
    assert_eq!(choices[0].project, "alpha");
    assert_eq!(PathBuf::from(&choices[0].path), PathBuf::from("/workspace/alpha"));
    assert_eq!(choices[1].project, "beta");
}

#[test]
fn test_summary_groups_merge_same_project_and_keep_latest_mtime() {
    let root = "/workspace";
    let now = SystemTime::now();
    let results = vec![
        dir_result(root, "alpha", now - Duration::from_secs(86400 * 2)),
        DirResult {
            dir: path_str(PathBuf::from(root).join("alpha").join("src")),
            files: vec![FileEntry {
                name: "config.toml".to_string(),
                path: path_str(PathBuf::from(root).join("alpha/src/config.toml")),
                mtime: nanos(now - Duration::from_secs(1800)),
                size: 1,
                type_label: "configs".to_string(),
            }],
        },
        dir_result(root, "beta", now - Duration::from_secs(7200)),
    ];

    let groups = build_summary_groups(&results, root);

    assert_eq!(groups.len(), 2);
    assert_eq!(groups[0].0, "alpha");
    assert_eq!(groups[0].1, 2);
    assert_eq!(groups[1].0, "beta");
}

const SEC: i128 = 1_000_000_000;

#[test]
fn relative_time_units_at_fixed_clock() {
    let now = 10_000_000 * SEC;
    assert_eq!(format_relative_time_at(now, now), "0s ago");
    assert_eq!(format_relative_time_at(now - 59 * SEC, now), "59s ago");
    assert_eq!(format_relative_time_at(now - 60 * SEC, now), "1m ago");
    assert_eq!(format_relative_time_at(now - 3599 * SEC, now), "59m ago");
    assert_eq!(format_relative_time_at(now - 3600 * SEC, now), "1h ago");
    assert_eq!(format_relative_time_at(now - 86399 * SEC, now), "23h ago");
    assert_eq!(format_relative_time_at(now - 86400 * SEC, now), "1d ago");
    assert_eq!(format_relative_time_at(now + 500 * SEC, now), "0s ago");
}

#[test]
fn summary_line_exact_text() {
    let now = 10_000_000 * SEC;
    assert_eq!(
        format_summary_line_at(1, "dram-quest", 5, now - 7200 * SEC, now),
        "  1  dram-quest               5 changes  2h ago"
    );
    assert_eq!(
        format_summary_line_at(12, "a", 1, now, now),
        "  12  a                        1 change  0s ago"
    );
}

#[test]
fn cache_age_text_units() {
    assert_eq!(format_cache_age(0), "0m old");
    assert_eq!(format_cache_age(3599 * 1_000_000_000), "59m old");
    assert_eq!(format_cache_age(3600 * 1_000_000_000), "1h old");
    assert_eq!(format_cache_age(3 * 86400 * 1_000_000_000), "3d old");
}

#[test]
fn project_name_first_component_or_whole_dir() {
    let r = DirResult { dir: "/workspace/alpha/src".to_string(), files: vec![] };
    assert_eq!(project_name(&r, "/workspace"), "alpha");
    let outside = DirResult { dir: "/elsewhere/x".to_string(), files: vec![] };
    assert_eq!(project_name(&outside, "/workspace"), "/elsewhere/x");
    let same = DirResult { dir: "/workspace".to_string(), files: vec![] };
    assert_eq!(project_name(&same, "/workspace"), "/workspace");
}

#[test]
fn size_delta_small_values_are_bytes() {
    assert_eq!(format_size_delta(0), "+0B");
    assert_eq!(format_size_delta(500), "+500B");
    assert_eq!(format_size_delta(-600), "-600B");
    assert_eq!(format_size_delta(1023), "+1023B");
}

#[test]
fn size_delta_units_exact_values() {
    assert_eq!(format_size_delta(1024), "+1.0KB");
    assert_eq!(format_size_delta(1536), "+1.5KB");
    assert_eq!(format_size_delta(-1536), "-1.5KB");
    assert_eq!(format_size_delta(1024 * 1024), "+1.0MB");
    assert_eq!(format_size_delta(5 * 1024 * 1024 * 1024), "+5.0GB");
    assert_eq!(format_size_delta(i64::MIN), "-8589934592.0GB");
}

fn reference_size_delta(bytes: i64) -> String {
    let sign = if bytes >= 0 { "+" } else { "-" };
    let abs = bytes.unsigned_abs();
    if abs < 1024 {
        format!("{}{}B", sign, abs)
    } else if abs < 1024 * 1024 {
        format!("{}{:.1}KB", sign, abs as f64 / 1024.0)
    } else if abs < 1024 * 1024 * 1024 {
        format!("{}{:.1}MB", sign, abs as f64 / (1024.0 * 1024.0))
    } else {
        format!("{}{:.1}GB", sign, abs as f64 / (1024.0 * 1024.0 * 1024.0))
    }
}

#[test]
fn size_delta_agrees_with_float_formatting() {
    let mut samples: Vec<i64> = vec![
        1024, 1075, 1126, 1177, 1178, 1280, 1331, 1382, 2048 + 102, 1048575, 1048576, 1153433, 1258291,
        1073741823, 1073741824, 1181116006, 1288490188, 1342177280, 9007199254740993, 9007199254740995,
        (1i64 << 53) + 1, (1i64 << 60) + 12345, i64::MAX, i64::MIN, i64::MIN + 1,
    ];
    let mut x: u64 = 0x9E37_79B9_7F4A_7C15;
    for _ in 0..20000 {
        x ^= x << 13;
        x ^= x >> 7;
        x ^= x << 17;
        let shift = (x % 64) as u32;
        samples.push((x >> shift) as i64);
        samples.push(-((x >> (shift | 1)) as i64));
        samples.push(((x % 4096) as i64) * 128);
        samples.push(((x % 4096) as i64) * 131072);
    }
    for b in samples {
        assert_eq!(format_size_delta(b), reference_size_delta(b), "bytes = {}", b);
    }
}

fn trend_entry(walked_at: i128, file_count: u64, total_size: u64) -> TrendEntry {
    TrendEntry { root: "/p".to_string(), walked_at, file_count, total_size }
}

#[test]
fn trend_row_exact_text() {
    let now = 10_000_000 * SEC;
    let d = TrendDelta {
        from: trend_entry(now - 7200 * SEC, 10, 1000),
        to: trend_entry(now - 3600 * SEC, 15, 1500),
        file_count_delta: 5,
        total_size_delta: 500,
    };
    assert_eq!(trend_row_at(&d, now), "  1h ago                            +5         +500B");
    let e = TrendDelta {
        from: trend_entry(now - 3600 * SEC, 15, 3000),
        to: trend_entry(now, 12, 1464),
        file_count_delta: -3,
        total_size_delta: -1536,
    };
    assert_eq!(trend_row_at(&e, now), "  0s ago                            -3        -1.5KB");
}

#[test]
fn open_prompt_line_exact_text() {
    let now = 10_000_000 * SEC;
    let c = OpenChoice {
        project: "alpha".to_string(),
        path: "/workspace/alpha".to_string(),
        count: 1,
        last_mtime: now - 120 * SEC,
    };
    assert_eq!(open_prompt_line_at(0, &c, now), "  1  alpha (1 change, 2m ago)");
    let d = OpenChoice { project: "beta".to_string(), path: "/workspace/beta".to_string(), count: 3, last_mtime: now };
    assert_eq!(open_prompt_line_at(1, &d, now), "  2  beta (3 changes, 0s ago)");
}

#[test]
fn relative_path_below_root_or_whole() {
    assert_eq!(relative_path("/workspace/alpha/.env", "/workspace"), "alpha/.env");
    assert_eq!(relative_path("/other/.env", "/workspace"), "/other/.env");
}

fn find_match(root: &str, path: &str, age: u128) -> FindMatch {
    FindMatch {
        root: root.to_string(),
        file: CachedFile { path: path.to_string(), mtime: 0, size: 1 },
        cache_age: age,
    }
}

#[test]
fn find_results_grouped_by_root_in_path_order() {
    let matches = vec![
        find_match("/w/zeta", "/w/zeta/.env", 500),
        find_match("/w/alpha", "/w/alpha/a/.env", 300),
        find_match("/w/zeta/", "/w/zeta/b/.env.local", 200),
        find_match("/w/alpha", "/elsewhere/.env", 900),
    ];
    let groups = find_result_groups(&matches);
    assert_eq!(groups.len(), 2);
    assert_eq!(groups[0].root, "/w/alpha");
    assert_eq!(groups[0].cache_age, 300);
    assert_eq!(groups[0].paths, vec!["a/.env".to_string(), "/elsewhere/.env".to_string()]);
    assert_eq!(groups[1].root, "/w/zeta");
    assert_eq!(groups[1].cache_age, 200);
    assert_eq!(groups[1].paths, vec![".env".to_string(), "b/.env.local".to_string()]);
    assert!(find_result_groups(&[]).is_empty());
}

#[test]
fn summary_counts_match_verbose_listing() {
    let root = "/workspace";
    let now = SystemTime::now();
    let results = vec![
        dir_result(root, "alpha", now - Duration::from_secs(500)),
        dir_result("/workspace/alpha", "src", now - Duration::from_secs(100)),
        dir_result(root, "beta", now - Duration::from_secs(50)),
        dir_result("/workspace/alpha", "docs", now - Duration::from_secs(900)),
    ];
    let summary = build_summary_groups(&results, root);
    let verbose = build_verbose_groups(&results, root);
    assert_eq!(summary.len(), verbose.len());
    for (s, v) in summary.iter().zip(verbose.iter()) {
        assert_eq!(s.0, v.0);
        assert_eq!(s.1, v.1.len());
    }
    assert_eq!(summary[0].0, "beta");
    assert_eq!(summary[1].0, "alpha");
    assert_eq!(summary[1].1, 3);
    let alpha_files: Vec<i128> = verbose[1].1.iter().map(|f| f.mtime).collect();
    let mut sorted = alpha_files.clone();
    sorted.sort_by(|a, b| b.cmp(a));
    assert_eq!(alpha_files, sorted);
}

#[test]
fn summary_row_time_is_newest_of_its_project() {
    let root = "/workspace";
    let now = SystemTime::now();
    let results = vec![
        dir_result(root, "alpha", now - Duration::from_secs(900)),
        dir_result("/workspace/alpha", "src", now - Duration::from_secs(100)),
        dir_result("/workspace/alpha", "docs", now - Duration::from_secs(5000)),
        DirResult { dir: "/workspace/empty".to_string(), files: vec![] },
    ];
    let groups = build_summary_groups(&results, root);
    assert_eq!(groups[0].0, "alpha");
    assert_eq!(groups[0].1, 3);
    assert_eq!(groups[0].2, nanos(now - Duration::from_secs(100)));
    assert_eq!(groups[1].0, "empty");
    assert_eq!(groups[1].1, 0);
    assert_eq!(groups[1].2, 0);
    let total: usize = groups.iter().map(|g| g.1).sum();
    assert_eq!(total, 3);
}

#[test]
fn verbose_header_count_and_path_cell() {
    assert_eq!(format_change_count(1), "  (1 change)");
    assert_eq!(format_change_count(5), "  (5 changes)");
    assert_eq!(format_change_count(0), "  (0 changes)");
    let cell = verbose_path_cell("/w/alpha/.env", "/w");
    assert_eq!(cell, format!("{:<35}", "alpha/.env"));
    assert_eq!(verbose_path_cell("/x/y", "/w"), format!("{:<35}", "/x/y"));
}
