use dirtrack::index::CachedFile;
use dirtrack::scanner::{scan_with_cache, select_file, ScanConfig};

const SEC: i128 = 1_000_000_000;

fn file(path: &str, mtime: i128) -> CachedFile {
    CachedFile { path: path.to_string(), mtime, size: 1 }
}

fn config() -> ScanConfig {
    ScanConfig { since: None, until: None, type_spec: None, filename: None, max_depth: None, stale_before: None }
}

#[test]
fn scan_finds_recent_file_in_its_directory() {
    let now = 1_000_000 * SEC;
    let files = vec![file("/t/project/src/.env", now)];
    let mut cfg = config();
    cfg.since = Some(now - 60 * SEC);
    cfg.type_spec = Some("secrets".to_string());
    let (results, count) = scan_with_cache("/t", &cfg, (files, 7));
    assert_eq!(count, 7);
    assert_eq!(results.len(), 1);
    assert!(results[0].dir.ends_with("src"));
    assert_eq!(results[0].files[0].type_label, "secrets");
}

#[test]
fn scan_excludes_files_outside_the_window() {
    let now = 1_000_000 * SEC;
    let files = vec![file("/t/old.env", now), file("/t/new.env", now + 10 * SEC)];
    let mut cfg = config();
    cfg.since = Some(now + 3600 * SEC);
    let (results, _) = scan_with_cache("/t", &cfg, (files, 2));
    assert!(results.is_empty(), "file older than cutoff should be excluded");
    let files2 = vec![file("/t/old.env", now), file("/t/new.env", now + 10 * SEC)];
    let mut cfg2 = config();
    cfg2.until = Some(now + 5 * SEC);
    let (results2, _) = scan_with_cache("/t", &cfg2, (files2, 2));
    assert_eq!(results2.len(), 1);
    assert_eq!(results2[0].files.len(), 1);
    assert_eq!(results2[0].files[0].name, "old.env");
}

#[test]
fn scan_respects_max_depth() {
    let files = vec![file("/t/a/b/c/d/file.rs", 0), file("/t/a/file.rs", 0)];
    let mut cfg = config();
    cfg.type_spec = Some("code".to_string());
    cfg.max_depth = Some(2);
    let (results, _) = scan_with_cache("/t", &cfg, (files, 2));
    assert_eq!(results.len(), 1);
    assert_eq!(results[0].dir, "/t/a");
}

#[test]
fn scan_with_exact_filename() {
    let files = vec![file("/t/.env", 0), file("/t/.env.local", 0)];
    let mut cfg = config();
    cfg.filename = Some(".env".to_string());
    let (results, _) = scan_with_cache("/t", &cfg, (files, 2));
    assert_eq!(results.len(), 1);
    assert!(results[0].files[0].name == ".env");
}

#[test]
fn scan_groups_by_directory_in_path_order_newest_first() {
    let files = vec![
        file("/t/b/x.rs", 1),
        file("/t/a/y.rs", 5),
        file("/t/b/z.rs", 9),
        file("/t/a/w.rs", 2),
        file("/t/b/v.rs", 9),
    ];
    let (results, _) = scan_with_cache("/t", &config(), (files, 5));
    assert_eq!(results.len(), 2);
    assert_eq!(results[0].dir, "/t/a");
    let a: Vec<&str> = results[0].files.iter().map(|f| f.name.as_str()).collect();
    assert_eq!(a, vec!["y.rs", "w.rs"]);
    assert_eq!(results[1].dir, "/t/b");
    let b: Vec<&str> = results[1].files.iter().map(|f| f.name.as_str()).collect();
    assert_eq!(b, vec!["z.rs", "v.rs", "x.rs"]);
}

#[test]
fn select_file_labels_by_extension() {
    let (dir, e) = select_file("/t", &config(), &file("/t/p/Config.YAML", 3)).unwrap();
    assert_eq!(dir, "/t/p");
    assert_eq!(e.name, "Config.YAML");
    assert_eq!(e.type_label, "configs");
    let (_, dot) = select_file("/t", &config(), &file("/t/.env", 3)).unwrap();
    assert_eq!(dot.type_label, "secrets");
    let (_, none) = select_file("/t", &config(), &file("/t/Makefile", 3)).unwrap();
    assert_eq!(none.type_label, "other");
}

#[test]
fn dot_env_variants_count_as_secrets() {
    let files = vec![
        file("/t/p/.env", 0),
        file("/t/p/prisma/.env.local", 0),
        file("/t/p/src/lib/.env.test", 0),
        file("/t/p/.env.staging", 0),
        file("/t/p/.eslintrc.json", 0),
        file("/t/p/notes.local", 0),
    ];
    let mut cfg = config();
    cfg.type_spec = Some("secrets".to_string());
    let (results, _) = scan_with_cache("/t", &cfg, (files, 6));
    let mut names: Vec<String> = Vec::new();
    for r in &results {
        for f in &r.files {
            assert_eq!(f.type_label, "secrets");
            names.push(f.name.clone());
        }
    }
    names.sort();
    assert_eq!(names, vec![".env", ".env.local", ".env.staging", ".env.test"]);
    let (_, json) = select_file("/t", &config(), &file("/t/.eslintrc.json", 0)).unwrap();
    assert_eq!(json.type_label, "configs");
    let (_, local) = select_file("/t", &config(), &file("/t/.env.local", 0)).unwrap();
    assert_eq!(local.type_label, "secrets");
}

#[test]
fn stale_bound_keeps_only_directories_older_than_it() {
    let files = vec![
        file("/t/old/a.rs", 10 * SEC),
        file("/t/old/b.rs", 20 * SEC),
        file("/t/mixed/c.rs", 10 * SEC),
        file("/t/mixed/d.rs", 500 * SEC),
        file("/t/new/e.rs", 400 * SEC),
    ];
    let mut cfg = config();
    cfg.stale_before = Some(100 * SEC);
    let (results, count) = scan_with_cache("/t", &cfg, (files, 5));
    assert_eq!(count, 5);
    assert_eq!(results.len(), 1);
    assert_eq!(results[0].dir, "/t/old");
    assert_eq!(results[0].files.len(), 2);
}

#[test]
fn every_passing_file_appears_once() {
    let files = vec![
        file("/t/a/x.rs", 1),
        file("/t/b/y.rs", 2),
        file("/t/a/z.md", 3),
        file("/t/a/w.rs", 4),
    ];
    let mut cfg = config();
    cfg.type_spec = Some("code".to_string());
    let (results, _) = scan_with_cache("/t", &cfg, (files, 4));
    let total: usize = results.iter().map(|r| r.files.len()).sum();
    assert_eq!(total, 3);
    assert!(results.iter().all(|r| !r.files.is_empty()));
}
