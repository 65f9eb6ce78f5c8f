use dirtrack::history::{
    build_preset_args, entry_args, format_preset_command, preset_args, History, HistoryEntry, HistoryFile, LastRun,
    PresetValue,
};

fn history_in_tmp() -> History {
    History::new("/tmp/dirtrack-test/history.json".to_string(), None)
}

fn reload(h: &History) -> History {
    History::new(
        h.path().to_string(),
        Some(HistoryFile {
            entries: h.entries().to_vec(),
            presets: h.presets().to_vec(),
            last_run: h.last_run().cloned(),
        }),
    )
}

fn strings(xs: &[&str]) -> Vec<String> {
    xs.iter().map(|s| s.to_string()).collect()
}

#[test]
fn test_history_saves_and_loads() {
    let mut h = history_in_tmp();
    let args = build_preset_args("/tmp", &Some("7d".to_string()), &Some("secrets".to_string()), false);
    h.push_args(&args);

    let h2 = reload(&h);
    assert_eq!(h2.entries().len(), 1);
    assert_eq!(h2.entries()[0].command(), "dirtrack /tmp --since 7d --type secrets");
}

#[test]
fn test_history_capped_at_five() {
    let mut h = history_in_tmp();
    for i in 0..7 {
        let args = build_preset_args("/tmp", &Some(format!("{}d", i)), &None, false);
        h.push_args(&args);
    }

    let h2 = reload(&h);
    assert_eq!(h2.entries().len(), 5);
    assert!(h2.entries()[0].command().contains("6d"));
}

#[test]
fn test_history_entry_preserves_path_with_spaces() {
    let mut h = history_in_tmp();
    let args = build_preset_args("/Volumes/My Disk/project", &Some("7d".to_string()), &None, false);
    h.push_args(&args);

    let h2 = reload(&h);
    assert_eq!(h2.get_entry(1).unwrap()[1], "/Volumes/My Disk/project");
}

#[test]
fn test_preset_save_and_run() {
    let mut h = history_in_tmp();
    let args = build_preset_args("/Volumes/WS4TB", &Some("1d".to_string()), &Some("secrets".to_string()), false);
    h.save_preset("daily", &args);

    let h2 = reload(&h);
    assert_eq!(
        h2.get_preset("daily").unwrap(),
        &[
            "dirtrack".to_string(),
            "/Volumes/WS4TB".to_string(),
            "--since".to_string(),
            "1d".to_string(),
            "--type".to_string(),
            "secrets".to_string(),
        ]
    );
}

#[test]
fn test_preset_preserves_path_with_spaces() {
    let mut h = history_in_tmp();
    let args = build_preset_args(
        "/Volumes/My Disk/project",
        &Some("7d".to_string()),
        &Some("secrets".to_string()),
        false,
    );
    h.save_preset("spaced", &args);

    let h2 = reload(&h);
    let loaded = h2.get_preset("spaced").unwrap();
    assert_eq!(loaded[1], "/Volumes/My Disk/project");
    assert_eq!(format_preset_command(loaded), "dirtrack \"/Volumes/My Disk/project\" --since 7d --type secrets");
}

#[test]
fn test_missing_preset_returns_none() {
    let h = history_in_tmp();
    assert!(h.get_preset("nonexistent").is_none());
}

#[test]
fn test_last_run_round_trips() {
    let mut h = history_in_tmp();
    h.set_last_run(LastRun {
        dir: "/Volumes/WS4TB".to_string(),
        since: Some("7d".to_string()),
        type_spec: Some("secrets".to_string()),
        verbose: true,
        open: false,
    });

    let h2 = reload(&h);
    let last = h2.last_run().expect("last_run should be present");
    assert_eq!(last.dir, "/Volumes/WS4TB");
    assert_eq!(last.since.as_deref(), Some("7d"));
    assert_eq!(last.type_spec.as_deref(), Some("secrets"));
    assert!(last.verbose);
    assert!(!last.open);
}

#[test]
fn test_last_run_defaults_to_none() {
    let h = history_in_tmp();
    assert!(h.last_run().is_none());
}

#[test]
fn legacy_command_string_entry_reads_as_arguments() {
    let args = entry_args(Vec::new(), "dirtrack /tmp --since 7d --type secrets");
    let h = History::new(
        "/tmp/h.json".to_string(),
        Some(HistoryFile {
            entries: vec![HistoryEntry { args, ran_at: "2026-06-18T12:00:00Z".to_string() }],
            presets: Vec::new(),
            last_run: None,
        }),
    );
    assert_eq!(h.get_entry(1).unwrap(), &strings(&["dirtrack", "/tmp", "--since", "7d", "--type", "secrets"])[..]);
}

#[test]
fn entry_args_prefer_the_argument_list() {
    let args = entry_args(strings(&["dirtrack", "/a b"]), "ignored command");
    assert_eq!(args, strings(&["dirtrack", "/a b"]));
}

#[test]
fn legacy_string_preset_reads_as_arguments() {
    let p = preset_args(PresetValue::Text("dirtrack /Volumes/WS4TB --since 1d --type secrets".to_string()));
    assert_eq!(p.unwrap(), strings(&["dirtrack", "/Volumes/WS4TB", "--since", "1d", "--type", "secrets"]));
    let list = preset_args(PresetValue::List(vec![Some("dirtrack".to_string()), None, Some("/x".to_string())]));
    assert_eq!(list.unwrap(), strings(&["dirtrack", "/x"]));
    assert!(preset_args(PresetValue::Text("   ".to_string())).is_none());
    assert!(preset_args(PresetValue::List(vec![None])).is_none());
    assert!(preset_args(PresetValue::Other).is_none());
}

#[test]
fn get_entry_counts_from_one() {
    let mut h = history_in_tmp();
    h.push_args(&strings(&["dirtrack", "a"]));
    h.push_args(&strings(&["dirtrack", "b"]));
    assert!(h.get_entry(0).is_none());
    assert_eq!(h.get_entry(1).unwrap()[1], "b");
    assert_eq!(h.get_entry(2).unwrap()[1], "a");
    assert!(h.get_entry(3).is_none());
}

#[test]
fn saving_a_preset_again_replaces_it() {
    let mut h = history_in_tmp();
    h.save_preset("x", &strings(&["dirtrack", "1"]));
    h.save_preset("y", &strings(&["dirtrack", "2"]));
    h.save_preset("x", &strings(&["dirtrack", "3"]));
    assert_eq!(h.presets().len(), 2);
    assert_eq!(h.get_preset("x").unwrap(), &strings(&["dirtrack", "3"])[..]);
    assert_eq!(h.get_preset("y").unwrap(), &strings(&["dirtrack", "2"])[..]);
}

#[test]
fn loaded_presets_with_the_same_name_keep_the_last() {
    let h = History::new(
        "/tmp/h.json".to_string(),
        Some(HistoryFile {
            entries: Vec::new(),
            presets: vec![
                ("d".to_string(), strings(&["a"])),
                ("d".to_string(), strings(&["b"])),
            ],
            last_run: None,
        }),
    );
    assert_eq!(h.get_preset("d").unwrap(), &strings(&["b"])[..]);
    assert_eq!(h.presets().len(), 1);
}

#[test]
fn preset_args_in_order_with_flags() {
    assert_eq!(
        build_preset_args("/d", &None, &Some("code".to_string()), true),
        strings(&["dirtrack", "/d", "--type", "code", "--verbose"])
    );
    assert_eq!(build_preset_args("/d", &None, &None, false), strings(&["dirtrack", "/d"]));
}

#[test]
fn command_of_plain_words_splits_back() {
    let args = strings(&["dirtrack", "/tmp", "--since", "7d"]);
    let cmd = format_preset_command(&args);
    let back: Vec<String> = cmd.split_whitespace().map(|s| s.to_string()).collect();
    assert_eq!(back, args);
    assert_eq!(format_preset_command(&[]), "");
}

#[test]
fn default_history_lives_under_the_config_dir() {
    let h = History::load_default("/home/u/.config", None);
    assert_eq!(h.path(), "/home/u/.config/dirtrack/history.json");
    assert!(h.entries().is_empty());
}

#[test]
fn pushed_search_is_stamped_with_the_clock_reading() {
    let mut h = history_in_tmp();
    h.push_args_at(&strings(&["dirtrack", "/a"]), 1767225600 * 1_000_000_000);
    assert_eq!(h.entries()[0].ran_at, "2026-01-01T00:00:00+00:00");
    h.push_args_at(&strings(&["dirtrack", "/b"]), i128::MAX / 2);
    assert_eq!(h.entries().len(), 1);
    h.push_args(&strings(&["dirtrack", "/c"]));
    assert_eq!(h.entries().len(), 2);
    assert!(!h.entries()[0].ran_at.is_empty());
}
