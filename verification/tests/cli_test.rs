use dirtrack::cli::{is_interactive, parse_open_choice, run_target_args, Cli};
use dirtrack::config::{config_dir, history_file, index_dir, trend_file};
use dirtrack::history::History;
use dirtrack::interactive::{
    custom_default, default_dir, flag_default_index, since_default_index, since_from_choice, since_options,
    type_default_index, type_from_choice, type_options,
};
use dirtrack::history::LastRun;

fn cli() -> Cli {
    Cli {
        dir: None,
        since: None,
        until: None,
        type_filter: None,
        file: None,
        depth: None,
        open: false,
        verbose: false,
        save: None,
        run: None,
        history: false,
        find: None,
        trend: false,
        stale: None,
        refresh: false,
        mcp: false,
        completions: None,
    }
}

fn strings(xs: &[&str]) -> Vec<String> {
    xs.iter().map(|s| s.to_string()).collect()
}

#[test]
fn bare_command_line_is_interactive() {
    let mut c = cli();
    assert!(is_interactive(&c));
    c.verbose = true;
    c.until = Some("1d".to_string());
    assert!(is_interactive(&c));
    c.file = Some(".env".to_string());
    assert!(!is_interactive(&c));
    let mut d = cli();
    d.stale = Some("30d".to_string());
    assert!(!is_interactive(&d));
}

#[test]
fn run_targets_name_searches_or_presets() {
    let mut h = History::new("/tmp/h.json".to_string(), None);
    h.push_args(&strings(&["dirtrack", "/old"]));
    h.push_args(&strings(&["dirtrack", "/new"]));
    h.save_preset("daily", &strings(&["dirtrack", "/d"]));
    assert_eq!(run_target_args(&h, "!1").unwrap()[1], "/new");
    assert_eq!(run_target_args(&h, "!+2").unwrap()[1], "/old");
    assert!(run_target_args(&h, "!3").is_none());
    assert!(run_target_args(&h, "!0").is_none());
    assert!(run_target_args(&h, "!x").is_none());
    assert!(run_target_args(&h, "!!1").is_none());
    assert_eq!(run_target_args(&h, "daily").unwrap()[1], "/d");
    assert!(run_target_args(&h, "weekly").is_none());
}

#[test]
fn open_choice_is_a_number_in_range() {
    assert_eq!(parse_open_choice("1\n", 3), Some(0));
    assert_eq!(parse_open_choice("  3 ", 3), Some(2));
    assert_eq!(parse_open_choice("4", 3), None);
    assert_eq!(parse_open_choice("0", 3), None);
    assert_eq!(parse_open_choice("", 3), None);
    assert_eq!(parse_open_choice("\n", 3), None);
    assert_eq!(parse_open_choice("two", 3), None);
    assert_eq!(parse_open_choice("-1", 3), None);
}

#[test]
fn config_dir_prefers_non_empty_xdg() {
    assert_eq!(config_dir(Some("/x/xdg-config"), Some("/home/u")), "/x/xdg-config");
    assert_eq!(config_dir(Some(""), Some("/home/u")), "/home/u/.config");
    assert_eq!(config_dir(None, Some("/home/u")), "/home/u/.config");
    assert_eq!(config_dir(None, None), ".config");
}

#[test]
fn files_under_the_config_dir() {
    assert_eq!(index_dir("/c"), "/c/dirtrack/index");
    assert_eq!(trend_file("/c"), "/c/dirtrack/trend.json");
    assert_eq!(history_file("/c"), "/c/dirtrack/history.json");
}

fn last(since: Option<&str>, type_spec: Option<&str>) -> LastRun {
    LastRun {
        dir: "/w".to_string(),
        since: since.map(|s| s.to_string()),
        type_spec: type_spec.map(|s| s.to_string()),
        verbose: true,
        open: false,
    }
}

#[test]
fn prompts_start_on_last_answers() {
    assert_eq!(since_options(), strings(&["2h", "7d", "30d", "custom", "no filter"]));
    assert_eq!(type_options(), strings(&["all", "secrets", "configs", "code", "custom"]));
    assert_eq!(since_default_index(None), 4);
    assert_eq!(since_default_index(Some(&last(None, None))), 4);
    assert_eq!(since_default_index(Some(&last(Some("7d"), None))), 1);
    assert_eq!(since_default_index(Some(&last(Some("12h"), None))), 3);
    assert_eq!(type_default_index(None), 0);
    assert_eq!(type_default_index(Some(&last(None, Some("code")))), 3);
    assert_eq!(type_default_index(Some(&last(None, Some(".env,.toml")))), 4);
    assert_eq!(flag_default_index(Some(true)), 1);
    assert_eq!(flag_default_index(Some(false)), 0);
    assert_eq!(flag_default_index(None), 0);
}

#[test]
fn answers_become_options() {
    assert_eq!(since_from_choice(4, None), None);
    assert_eq!(since_from_choice(1, None), Some("7d".to_string()));
    assert_eq!(since_from_choice(3, Some("12h".to_string())), Some("12h".to_string()));
    assert_eq!(type_from_choice(0, None), None);
    assert_eq!(type_from_choice(2, None), Some("configs".to_string()));
    assert_eq!(type_from_choice(4, Some(".env".to_string())), Some(".env".to_string()));
    assert_eq!(custom_default(Some("12h".to_string()), 3, 3), "12h");
    assert_eq!(custom_default(Some("12h".to_string()), 1, 3), "");
    assert_eq!(default_dir(Some(&last(None, None)), Some("/cwd".to_string())), "/w");
    assert_eq!(default_dir(None, Some("/cwd".to_string())), "/cwd");
    assert_eq!(default_dir(None, None), ".");
}

#[test]
fn accepting_defaults_reproduces_the_last_run() {
    let runs = vec![
        last(Some("7d"), Some("code")),
        last(Some("12h"), Some(".env,.toml")),
        last(None, None),
        last(Some("custom"), Some("custom")),
    ];
    for r in runs {
        let si = since_default_index(Some(&r));
        let since_custom = if si == 3 { Some(custom_default(r.since.clone(), si, 3)) } else { None };
        assert_eq!(since_from_choice(si, since_custom), r.since);
        let ti = type_default_index(Some(&r));
        let type_custom = if ti == 4 { Some(custom_default(r.type_spec.clone(), ti, 4)) } else { None };
        assert_eq!(type_from_choice(ti, type_custom), r.type_spec);
        assert_eq!(flag_default_index(Some(r.verbose)) == 1, r.verbose);
        assert_eq!(default_dir(Some(&r), None), r.dir);
    }
}
