use std::collections::hash_map::DefaultHasher;
use std::hash::{Hash, Hasher};
use dirtrack::index::{
    cache_path_for_hash, cache_path_for_root, is_fresh_at, is_skipped_dir, load_or_refresh, restat, walk_results,
    CacheUse, CachedFile, IndexCache, WalkedEntry, TTL_NANOS,
};

const SEC: i128 = 1_000_000_000;

fn cache(root: &str, walked_at: i128) -> IndexCache {
    IndexCache {
        root: root.to_string(),
        walked_at,
        files: vec![CachedFile { path: format!("{}/a.env", root), mtime: walked_at, size: 3 }],
    }
}

#[test]
fn fresh_cache_of_same_root_is_reused() {
    let now = 1_000_000 * SEC;
    match load_or_refresh("/root", Some(cache("/root", now - 3600 * SEC)), false, now) {
        CacheUse::Restat(files) => {
            assert_eq!(files.len(), 1);
            assert_eq!(files[0].path, "/root/a.env");
        }
        CacheUse::Walk => panic!("a fresh cache should be reused"),
    }
    assert!(matches!(load_or_refresh("/root/", Some(cache("/root", now)), false, now), CacheUse::Restat(_)));
}

#[test]
fn stale_cache_triggers_walk() {
    let now = 1_000_000 * SEC;
    assert!(matches!(load_or_refresh("/root", Some(cache("/root", now - 25 * 3600 * SEC)), false, now), CacheUse::Walk));
    assert!(matches!(load_or_refresh("/root", Some(cache("/root", now - TTL_NANOS)), false, now), CacheUse::Walk));
    assert!(matches!(
        load_or_refresh("/root", Some(cache("/root", now - TTL_NANOS + 1)), false, now),
        CacheUse::Restat(_)
    ));
}

#[test]
fn refresh_flag_forces_walk() {
    let now = 1_000_000 * SEC;
    assert!(matches!(load_or_refresh("/root", Some(cache("/root", now)), true, now), CacheUse::Walk));
}

#[test]
fn missing_or_foreign_cache_triggers_walk() {
    let now = 1_000_000 * SEC;
    assert!(matches!(load_or_refresh("/root", None, false, now), CacheUse::Walk));
    assert!(matches!(load_or_refresh("/root", Some(cache("/other", now)), false, now), CacheUse::Walk));
}

#[test]
fn cache_walked_in_the_future_is_fresh() {
    let now = 1_000_000 * SEC;
    assert!(is_fresh_at(&cache("/root", now + 48 * 3600 * SEC), now));
    assert!(!is_fresh_at(&cache("/root", now - TTL_NANOS), now));
}

#[test]
fn restat_drops_gone_files_and_updates_the_rest() {
    let cached = vec![
        CachedFile { path: "/r/a".to_string(), mtime: 1, size: 1 },
        CachedFile { path: "/r/gone".to_string(), mtime: 2, size: 2 },
        CachedFile { path: "/r/c".to_string(), mtime: 3, size: 3 },
    ];
    let (files, count) = restat(cached, vec![Some((10, 100)), None, Some((30, 300))]);
    assert_eq!(count, 2);
    assert_eq!(files.len(), 2);
    assert_eq!(files[0].path, "/r/a");
    assert_eq!(files[0].mtime, 10);
    assert_eq!(files[0].size, 100);
    assert_eq!(files[1].path, "/r/c");
    assert_eq!(files[1].mtime, 30);
}

#[test]
fn walk_counts_files_and_keeps_readable_ones() {
    let entries = vec![
        WalkedEntry { path: "/r".to_string(), is_file: false, meta: Some((0, 0)) },
        WalkedEntry { path: "/r/a.env".to_string(), is_file: true, meta: Some((5, 3)) },
        WalkedEntry { path: "/r/unreadable".to_string(), is_file: true, meta: None },
        WalkedEntry { path: "/r/b.rs".to_string(), is_file: true, meta: Some((7, 9)) },
    ];
    let (files, count) = walk_results(entries);
    assert_eq!(count, 3);
    assert_eq!(files.len(), 2);
    assert_eq!(files[0].path, "/r/a.env");
    assert_eq!(files[1].path, "/r/b.rs");
    assert_eq!(files[1].size, 9);
}

#[test]
fn skipped_directories() {
    for d in ["target", ".git", "node_modules", ".next", "__pycache__"] {
        assert!(is_skipped_dir(d), "{} should be skipped", d);
    }
    for d in ["src", "targets", ".github", "Target", ""] {
        assert!(!is_skipped_dir(d), "{} should not be skipped", d);
    }
}

#[test]
fn cache_file_named_by_hex_hash() {
    assert_eq!(cache_path_for_hash("/idx", 255), "/idx/ff.json");
    assert_eq!(cache_path_for_hash("/idx", 0), "/idx/0.json");
    assert_eq!(cache_path_for_hash("/idx/", u64::MAX), "/idx/ffffffffffffffff.json");
}

#[test]
fn cache_path_matches_path_hash() {
    let root = "/Volumes/WS4TB";
    let mut h = DefaultHasher::new();
    std::path::PathBuf::from(root).hash(&mut h);
    let expected = format!("/idx/{:x}.json", h.finish());
    assert_eq!(cache_path_for_root("/idx", root), expected);
    assert_eq!(cache_path_for_root("/idx", root), cache_path_for_root("/idx", root));
    assert_ne!(cache_path_for_root("/idx", "/a"), cache_path_for_root("/idx", "/b"));
}
