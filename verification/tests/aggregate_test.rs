use std::time::{Duration, SystemTime, UNIX_EPOCH};
use dirtrack::aggregate::{find_across_caches, is_index_file, matches_fuzzy};
use dirtrack::index::{CachedFile, IndexCache};

fn nanos(t: SystemTime) -> i128 {
    match t.duration_since(UNIX_EPOCH) {
        Ok(d) => d.as_nanos() as i128,
        Err(e) => -(e.duration().as_nanos() as i128),
    }
}

fn cache(root: &str, walked_at: i128, names: &[&str]) -> IndexCache {
    IndexCache {
        root: root.to_string(),
        walked_at,
        files: names
            .iter()
            .map(|n| CachedFile { path: format!("{}/{}", root, n), mtime: walked_at, size: 3 })
            .collect(),
    }
}

#[test]
fn test_matches_fuzzy_is_case_insensitive_substring() {
    assert!(matches_fuzzy("dram-quest-config.json", "DRAM"));
    assert!(matches_fuzzy(".env.local", "env"));
    assert!(!matches_fuzzy("readme.md", "dram"));
}

#[test]
fn test_find_across_caches_empty_index_dir_returns_empty() {
    let caches: Vec<IndexCache> = Vec::new();
    let matches = find_across_caches(&caches, "anything", nanos(SystemTime::now()));
    assert!(matches.is_empty());
}

#[test]
fn find_searches_every_index_in_order() {
    let now = nanos(SystemTime::now());
    let caches = vec![
        cache("/tmp/dram-quest", now, &[".env"]),
        cache("/tmp/ersatz-rag", now, &[".env.production", "readme.md"]),
    ];
    let matches = find_across_caches(&caches, "env", now);
    assert_eq!(matches.len(), 2, "should find matches across both roots");
    assert!(matches[0].root.ends_with("dram-quest"));
    assert!(matches[1].root.ends_with("ersatz-rag"));
    assert_eq!(matches[1].file.path, "/tmp/ersatz-rag/.env.production");
}

#[test]
fn find_without_match_is_empty() {
    let now = nanos(SystemTime::now());
    let caches = vec![cache("/tmp/project", now, &["readme.md"])];
    assert!(find_across_caches(&caches, "nonexistent-pattern", now).is_empty());
}

#[test]
fn find_reports_cache_age() {
    let walked = nanos(SystemTime::now());
    let caches = vec![cache("/tmp/project", walked, &[".env"])];
    let later = nanos(SystemTime::now() + Duration::from_secs(3 * 86400));
    let matches = find_across_caches(&caches, "env", later);
    assert_eq!(matches.len(), 1);
    assert!(matches[0].cache_age >= (3 * 86400 - 5) * 1_000_000_000);
    let earlier = find_across_caches(&caches, "env", walked - 1_000_000_000);
    assert_eq!(earlier[0].cache_age, 0);
}

#[test]
fn find_matches_the_file_name_only() {
    let now = 0;
    let caches = vec![cache("/tmp/envs", now, &["a.txt", "B.ENV"])];
    let matches = find_across_caches(&caches, "env", now);
    assert_eq!(matches.len(), 1);
    assert_eq!(matches[0].file.path, "/tmp/envs/B.ENV");
}

#[test]
fn index_files_are_json() {
    assert!(is_index_file("/x/index/abc.json"));
    assert!(!is_index_file("/x/index/abc.json.tmp"));
    assert!(!is_index_file("/x/index/json"));
    assert!(!is_index_file("/x/index/abc.JSON"));
}
