use dirtrack::aggregate::FindMatch;
use dirtrack::index::CachedFile;
use dirtrack::mcp::{
    find_changed_response, fuzzy_find_response, parse_opt_time, scan_config, system_time_to_rfc3339, trend_response,
    FindChangedRequest,
};
use dirtrack::scanner::{DirResult, FileEntry};
use dirtrack::trend::{TrendDelta, TrendEntry};

fn request() -> FindChangedRequest {
    FindChangedRequest {
        dir: "/p".to_string(),
        since: None,
        until: None,
        stale: None,
        type_filter: Some("secrets".to_string()),
        file: Some(".env".to_string()),
        depth: Some(3),
        refresh: Some(true),
    }
}

#[test]
fn rfc3339_of_instants() {
    assert_eq!(system_time_to_rfc3339(0), "1970-01-01T00:00:00+00:00");
    assert_eq!(system_time_to_rfc3339(1767225600 * 1_000_000_000), "2026-01-01T00:00:00+00:00");
    assert_eq!(system_time_to_rfc3339(1_500_000_000), "1970-01-01T00:00:01.500+00:00");
    assert_eq!(system_time_to_rfc3339(-1), "1969-12-31T23:59:59.999999999+00:00");
}

#[test]
fn optional_time_bounds() {
    assert_eq!(parse_opt_time(&None), Ok(None));
    assert_eq!(parse_opt_time(&Some("2026-01-01".to_string())), Ok(Some(1767225600 * 1_000_000_000)));
    assert!(parse_opt_time(&Some("not-a-valid-duration".to_string())).is_err());
}

#[test]
fn scan_config_from_request() {
    let cfg = scan_config(&request()).unwrap();
    assert_eq!(cfg.since, None);
    assert_eq!(cfg.type_spec.as_deref(), Some("secrets"));
    assert_eq!(cfg.filename.as_deref(), Some(".env"));
    assert_eq!(cfg.max_depth, Some(3));
    let mut r = request();
    r.until = Some("2026-01-01".to_string());
    assert_eq!(scan_config(&r).unwrap().until, Some(1767225600 * 1_000_000_000));
}

#[test]
fn scan_config_reports_first_bad_bound() {
    let mut r = request();
    r.since = Some("not-a-valid-duration".to_string());
    r.until = Some("xh".to_string());
    let e = scan_config(&r).err().unwrap();
    assert!(e.starts_with("invalid date/duration 'not-a-valid-duration'"));
    let mut ok = request();
    ok.stale = Some("2026-01-01".to_string());
    assert_eq!(scan_config(&ok).unwrap().stale_before, Some(1767225600 * 1_000_000_000));
    let mut s = request();
    s.stale = Some("zd".to_string());
    assert_eq!(scan_config(&s).err().unwrap(), "invalid days: zd");
}

#[test]
fn find_changed_answer_lists_results() {
    let results = vec![
        DirResult {
            dir: "/p".to_string(),
            files: vec![FileEntry {
                name: ".env".to_string(),
                path: "/p/.env".to_string(),
                mtime: 0,
                size: 8,
                type_label: "secrets".to_string(),
            }],
        },
        DirResult { dir: "/p/q".to_string(), files: vec![] },
    ];
    let r = find_changed_response(&results, 42, 7);
    assert_eq!(r.total_files_matched, 1);
    assert_eq!(r.total_files_scanned, 42);
    assert_eq!(r.elapsed_ms, 7);
    assert_eq!(r.results.len(), 2);
    assert_eq!(r.results[0].files[0].name, ".env");
    assert_eq!(r.results[0].files[0].type_label, "secrets");
    assert_eq!(r.results[0].files[0].mtime, "1970-01-01T00:00:00+00:00");
    assert_eq!(r.results[1].dir, "/p/q");
}

#[test]
fn fuzzy_find_answer_lists_matches() {
    let m = FindMatch {
        root: "/dram-quest".to_string(),
        file: CachedFile { path: "/dram-quest/.env.production".to_string(), mtime: 0, size: 3 },
        cache_age: 90 * 1_000_000_000 + 5,
    };
    let r = fuzzy_find_response(&[m]);
    assert_eq!(r.matches.len(), 1);
    assert!(r.matches[0].path.ends_with(".env.production"));
    assert_eq!(r.matches[0].cache_age_secs, 90);
    assert_eq!(r.matches[0].root, "/dram-quest");
}

#[test]
fn trend_answer_lists_changes() {
    let e = |t: i128, c: u64, s: u64| TrendEntry { root: "/g".to_string(), walked_at: t, file_count: c, total_size: s };
    let d = TrendDelta { from: e(0, 1, 3), to: e(1_000_000_000, 2, 6), file_count_delta: 1, total_size_delta: 3 };
    let r = trend_response(&[d]);
    assert_eq!(r.deltas.len(), 1);
    assert_eq!(r.deltas[0].file_count_delta, 1);
    assert_eq!(r.deltas[0].file_count_after, 2);
    assert_eq!(r.deltas[0].total_size_after, 6);
    assert_eq!(r.deltas[0].to_walked_at, "1970-01-01T00:00:01+00:00");
    assert!(trend_response(&[]).deltas.is_empty());
}
