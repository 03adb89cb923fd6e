use tidy::classify::category_for_extension;
use tidy::codec::{log_from_json, parse_log, serialize_log};
use tidy::config::Config;
use tidy::log::{log_file_name, Operation, OperationLog};
use tidy::organize::{organize_plan, plan_moves, FileEntry};
use tidy::paths::{extension_of, unique_path};
use tidy::revert::{plan_revert, revert_action, should_clear_log, RevertAction};

fn entry(name: &str) -> FileEntry {
    FileEntry { name: name.to_string(), is_file: true }
}

fn dir_entry(name: &str) -> FileEntry {
    FileEntry { name: name.to_string(), is_file: false }
}

fn paths(v: &[&str]) -> Vec<String> {
    v.iter().map(|s| s.to_string()).collect()
}

// --- classification ---

#[test]
fn classify_known_extensions() {
    let c = Config::default_config();
    assert_eq!(category_for_extension("png", &c), "Images");
    assert_eq!(category_for_extension("pdf", &c), "Docs");
    assert_eq!(category_for_extension("mkv", &c), "Videos");
    assert_eq!(category_for_extension("flac", &c), "Audio");
    assert_eq!(category_for_extension("7z", &c), "Archives");
}

#[test]
fn classify_is_total_and_falls_back() {
    let c = Config::default_config();
    assert_eq!(category_for_extension("", &c), "Others");
    assert_eq!(category_for_extension("xyz", &c), "Others");
    assert_eq!(category_for_extension("tar.gz", &c), "Others");
}

#[test]
fn classify_is_case_insensitive() {
    let c = Config::default_config();
    assert_eq!(category_for_extension("JPG", &c), category_for_extension("jpg", &c));
    assert_eq!(category_for_extension("JPG", &c), "Images");
    assert_eq!(category_for_extension("Pdf", &c), "Docs");
}

#[test]
fn classify_first_match_wins() {
    let c = Config {
        categories: vec![
            tidy::config::Category {
                name: "First".to_string(),
                extensions: paths(&["dat"]),
            },
            tidy::config::Category {
                name: "Second".to_string(),
                extensions: paths(&["dat", "bin"]),
            },
        ],
    };
    assert_eq!(category_for_extension("dat", &c), "First");
    assert_eq!(category_for_extension("bin", &c), "Second");
}

// --- extensions ---

#[test]
fn extension_extraction() {
    assert_eq!(extension_of("a.txt"), "txt");
    assert_eq!(extension_of("archive.tar.gz"), "gz");
    assert_eq!(extension_of(".bashrc"), "");
    assert_eq!(extension_of("noext"), "");
    assert_eq!(extension_of("trailing."), "");
}

// --- collision-free resolution ---

#[test]
fn unique_path_free_candidate_unchanged() {
    let existing = paths(&["d/b.txt"]);
    assert_eq!(unique_path("d/a.txt", &existing), "d/a.txt");
}

#[test]
fn unique_path_probes_in_order() {
    let existing = paths(&["d/a.txt"]);
    assert_eq!(unique_path("d/a.txt", &existing), "d/a(1).txt");
    let existing = paths(&["d/a.txt", "d/a(1).txt"]);
    assert_eq!(unique_path("d/a.txt", &existing), "d/a(2).txt");
    let existing = paths(&["d/a.txt", "d/a(1).txt", "d/a(2).txt", "d/a(3).txt"]);
    assert_eq!(unique_path("d/a.txt", &existing), "d/a(4).txt");
}

#[test]
fn unique_path_edge_names() {
    let existing = paths(&["d/file"]);
    assert_eq!(unique_path("d/file", &existing), "d/file(1)");
    let existing = paths(&["d/.bashrc"]);
    assert_eq!(unique_path("d/.bashrc", &existing), "d/.bashrc(1)");
    let existing = paths(&["d/foo.tar.gz"]);
    assert_eq!(unique_path("d/foo.tar.gz", &existing), "d/foo.tar(1).gz");
}

// --- log codec ---

fn op(from: &str, to: &str, ts: &str) -> Operation {
    Operation { from: from.to_string(), to: to.to_string(), timestamp: ts.to_string() }
}

#[test]
fn serialize_empty_log() {
    let log = OperationLog { operations: vec![] };
    assert_eq!(serialize_log(&log), "{\"operations\":[]}");
}

#[test]
fn serialize_one_operation() {
    let log = OperationLog { operations: vec![op("d/a.png", "d/Images/a.png", "t1")] };
    assert_eq!(
        serialize_log(&log),
        "{\"operations\":[{\"from\":\"d/a.png\",\"to\":\"d/Images/a.png\",\"timestamp\":\"t1\"}]}"
    );
}

#[test]
fn log_round_trip_preserves_order_and_fields() {
    let log = OperationLog {
        operations: vec![
            op("d/a.png", "d/Images/a.png", "2024-01-01T00:00:00+00:00"),
            op("d/b.pdf", "d/Docs/b.pdf", "2024-01-01T00:00:01+00:00"),
            op("d/c.mp3", "d/Audio/c.mp3", "2024-01-01T00:00:02+00:00"),
        ],
    };
    let text = serialize_log(&log);
    let back = parse_log(&text).expect("serialized log must parse");
    assert_eq!(back.operations.len(), 3);
    for (a, b) in log.operations.iter().zip(back.operations.iter()) {
        assert_eq!(a.from, b.from);
        assert_eq!(a.to, b.to);
        assert_eq!(a.timestamp, b.timestamp);
    }
}

#[test]
fn log_round_trip_with_escapes() {
    let log = OperationLog {
        operations: vec![op("d/we\"ird\\name.txt", "d/Others/we\"ird\\name.txt", "t")],
    };
    let text = serialize_log(&log);
    let back = parse_log(&text).expect("serialized log must parse");
    assert_eq!(back.operations[0].from, "d/we\"ird\\name.txt");
    assert_eq!(back.operations[0].to, "d/Others/we\"ird\\name.txt");
}

#[test]
fn emitted_log_is_plain_json() {
    let log = OperationLog {
        operations: vec![
            op("d/a.png", "d/Images/a.png", "t1"),
            op("d/we\"ird\\name", "d/Others/we\"ird\\name", "t2"),
        ],
    };
    let text = serialize_log(&log);
    let v: serde_json::Value = serde_json::from_str(&text).expect("emitted log must be JSON");
    let ops = v.get("operations").unwrap().as_array().unwrap();
    assert_eq!(ops.len(), 2);
    assert_eq!(ops[0].get("from").unwrap().as_str().unwrap(), "d/a.png");
    assert_eq!(ops[0].get("to").unwrap().as_str().unwrap(), "d/Images/a.png");
    assert_eq!(ops[0].get("timestamp").unwrap().as_str().unwrap(), "t1");
    assert_eq!(ops[1].get("from").unwrap().as_str().unwrap(), "d/we\"ird\\name");
}

#[test]
fn control_characters_round_trip_as_valid_json() {
    let log = OperationLog {
        operations: vec![op("d/a\u{1}b\tc.txt", "d/Others/a\u{1}b\tc.txt", "t")],
    };
    let text = serialize_log(&log);
    assert!(text.contains("\\u0001"));
    assert!(text.contains("\\u0009"));
    let back = parse_log(&text).expect("serialized log must parse");
    assert_eq!(back.operations[0].from, "d/a\u{1}b\tc.txt");
    let v: serde_json::Value = serde_json::from_str(&text).expect("emitted log must be JSON");
    let ops = v.get("operations").unwrap().as_array().unwrap();
    assert_eq!(ops[0].get("from").unwrap().as_str().unwrap(), "d/a\u{1}b\tc.txt");
}

#[test]
fn unicode_escapes_for_control_characters_parse() {
    let text = "{\"operations\":[{\"from\":\"a\\u0009b\",\"to\":\"c\",\"timestamp\":\"t\"}]}";
    let back = parse_log(text).expect("log with unicode escapes must parse");
    assert_eq!(back.operations[0].from, "a\tb");
    assert_eq!(back.operations[0].to, "c");
}

#[test]
fn whitespace_in_log_is_not_significant() {
    let pretty = "{\n  \"operations\": [\n    {\n      \"from\": \"d/a.png\",\n      \"to\": \"d/Images/a.png\",\n      \"timestamp\": \"t1\"\n    },\n    {\n      \"from\": \"d/b.pdf\",\n      \"to\": \"d/Docs/b.pdf\",\n      \"timestamp\": \"t2\"\n    }\n  ]\n}";
    let back = parse_log(pretty).expect("pretty-printed log must parse");
    assert_eq!(back.operations.len(), 2);
    assert_eq!(back.operations[0].from, "d/a.png");
    assert_eq!(back.operations[0].to, "d/Images/a.png");
    assert_eq!(back.operations[0].timestamp, "t1");
    assert_eq!(back.operations[1].from, "d/b.pdf");
    assert_eq!(parse_log("{ \"operations\": [ ] }").unwrap().operations.len(), 0);
}

#[test]
fn garbled_log_loads_as_empty() {
    assert_eq!(log_from_json("").operations.len(), 0);
    assert_eq!(log_from_json("not a log").operations.len(), 0);
    assert_eq!(log_from_json("{\"operations\":[").operations.len(), 0);
    assert_eq!(log_from_json("{\"operations\":[]}").operations.len(), 0);
}

#[test]
fn add_operation_appends_in_order() {
    let mut log = OperationLog::new();
    log.add_operation("a".to_string(), "b".to_string());
    log.add_operation("c".to_string(), "d".to_string());
    assert_eq!(log.operations.len(), 2);
    assert_eq!(log.operations[0].from, "a");
    assert_eq!(log.operations[0].to, "b");
    assert_eq!(log.operations[1].from, "c");
    assert_eq!(log.operations[1].to, "d");
}

#[test]
fn log_file_name_is_fixed() {
    assert_eq!(log_file_name(), ".file-organizer-log.json");
}

// --- organizer ---

#[test]
fn plan_moves_classifies_and_joins() {
    let c = Config::default_config();
    let entries = vec![entry("a.png"), entry("b.pdf")];
    let existing = paths(&["d/a.png", "d/b.pdf"]);
    let plan = plan_moves("d", &entries, &c, false, &existing);
    assert_eq!(plan.len(), 2);
    assert_eq!(plan[0].from, "d/a.png");
    assert_eq!(plan[0].to, "d/Images/a.png");
    assert_eq!(plan[1].from, "d/b.pdf");
    assert_eq!(plan[1].to, "d/Docs/b.pdf");
}

#[test]
fn plan_moves_skips_log_file_and_directories() {
    let c = Config::default_config();
    let entries = vec![
        entry(".file-organizer-log.json"),
        dir_entry("Images"),
        entry("a.png"),
    ];
    let existing = paths(&["d/.file-organizer-log.json", "d/Images", "d/a.png"]);
    let plan = plan_moves("d", &entries, &c, false, &existing);
    assert_eq!(plan.len(), 1);
    assert_eq!(plan[0].from, "d/a.png");
}

#[test]
fn plan_moves_avoids_occupied_destination() {
    let c = Config::default_config();
    let entries = vec![entry("a.png")];
    let existing = paths(&["d/a.png", "d/Images/a.png"]);
    let plan = plan_moves("d", &entries, &c, false, &existing);
    assert_eq!(plan[0].to, "d/Images/a(1).png");
}

#[test]
fn force_reuses_the_bare_candidate() {
    let c = Config::default_config();
    let entries = vec![entry("a.png")];
    let existing = paths(&["d/a.png", "d/Images/a.png"]);
    let plan = plan_moves("d", &entries, &c, true, &existing);
    assert_eq!(plan[0].to, "d/Images/a.png");
}

#[test]
fn same_named_files_never_collide_without_force() {
    // Two runs into the same category directory: the second source file
    // keeps its name only in numbered form.
    let c = Config::default_config();
    let first = plan_moves("d", &vec![entry("a.png")], &c, false, &paths(&["d/a.png"]));
    assert_eq!(first[0].to, "d/Images/a.png");
    // After the first run, d/Images/a.png exists; a new d/a.png arrives.
    let existing = paths(&["d/a.png", "d/Images/a.png"]);
    let second = plan_moves("d", &vec![entry("a.png")], &c, false, &existing);
    assert_ne!(second[0].to, first[0].to);
    assert_eq!(second[0].to, "d/Images/a(1).png");
}

#[test]
fn dry_run_is_inert_for_organize() {
    let c = Config::default_config();
    let entries = vec![entry("a.png")];
    let existing = paths(&["d/a.png"]);
    let o = organize_plan("d", &entries, &c, true, false, &existing);
    assert!(!o.perform);
    assert!(!o.save_log);
    assert_eq!(o.moves.len(), 1);
    let wet = organize_plan("d", &entries, &c, false, false, &existing);
    assert!(wet.perform);
    assert!(wet.save_log);
}

// --- reverter ---

#[test]
fn revert_order_is_lifo() {
    let log = OperationLog {
        operations: vec![op("A", "A1", "t1"), op("B", "B1", "t2")],
    };
    let rev = plan_revert(&log);
    assert_eq!(rev.len(), 2);
    assert_eq!(rev[0].from, "B");
    assert_eq!(rev[0].to, "B1");
    assert_eq!(rev[1].from, "A");
    assert_eq!(rev[1].to, "A1");
}

#[test]
fn revert_action_checks() {
    assert_eq!(revert_action(false, true, false, true), RevertAction::Perform);
    assert_eq!(revert_action(false, false, false, true), RevertAction::SkipMissingTo);
    assert_eq!(revert_action(false, true, true, true), RevertAction::SkipFromExists);
    assert_eq!(revert_action(false, true, false, false), RevertAction::SkipNoParent);
}

#[test]
fn dry_run_is_inert_for_revert() {
    assert_eq!(revert_action(true, true, false, true), RevertAction::Report);
    assert_eq!(revert_action(true, false, true, false), RevertAction::Report);
    assert!(!should_clear_log(true, 5));
}

#[test]
fn log_cleared_only_after_a_real_revert() {
    assert!(should_clear_log(false, 1));
    assert!(should_clear_log(false, 2));
    assert!(!should_clear_log(false, 0));
    assert!(!should_clear_log(true, 2));
}

// --- whole-run scenarios over a model directory ---

fn apply_moves(fs: &mut Vec<String>, moves: &[(String, String)]) {
    for (from, to) in moves {
        let i = fs.iter().position(|p| p == from).expect("source must exist");
        fs.remove(i);
        fs.push(to.clone());
    }
}

#[test]
fn revert_reverses_organize() {
    let c = Config::default_config();
    let mut fs = paths(&["d/a.png", "d/b.pdf"]);
    let initial = fs.clone();

    // Organize.
    let entries = vec![entry("a.png"), entry("b.pdf")];
    let o = organize_plan("d", &entries, &c, false, false, &fs);
    assert!(o.perform);
    let mut log = OperationLog::new();
    let mut performed: Vec<(String, String)> = Vec::new();
    for m in &o.moves {
        log.add_operation(m.from.clone(), m.to.clone());
        performed.push((m.from.clone(), m.to.clone()));
    }
    apply_moves(&mut fs, &performed);
    assert!(fs.contains(&"d/Images/a.png".to_string()));
    assert!(fs.contains(&"d/Docs/b.pdf".to_string()));

    // Persist and reload the log through the codec.
    let reloaded = log_from_json(&serialize_log(&log));
    assert_eq!(reloaded.operations.len(), 2);

    // Revert, newest first, with the safety checks.
    let rev = plan_revert(&reloaded);
    let mut reverted: usize = 0;
    for op in &rev {
        let to_exists = fs.iter().any(|p| p == &op.to);
        let from_exists = fs.iter().any(|p| p == &op.from);
        match revert_action(false, to_exists, from_exists, true) {
            RevertAction::Perform => {
                apply_moves(&mut fs, &[(op.to.clone(), op.from.clone())]);
                reverted += 1;
            },
            _ => {},
        }
    }
    assert_eq!(reverted, 2);
    let mut got = fs.clone();
    let mut want = initial.clone();
    got.sort();
    want.sort();
    assert_eq!(got, want);
    assert!(should_clear_log(false, reverted));
    let cleared = OperationLog::new();
    assert_eq!(log_from_json(&serialize_log(&cleared)).operations.len(), 0);
}

#[test]
fn partially_deleted_target_is_skipped_but_rest_reverts() {
    let c = Config::default_config();
    let mut fs = paths(&["d/a.png", "d/b.pdf"]);

    let entries = vec![entry("a.png"), entry("b.pdf")];
    let o = organize_plan("d", &entries, &c, false, false, &fs);
    let mut log = OperationLog::new();
    let mut performed: Vec<(String, String)> = Vec::new();
    for m in &o.moves {
        log.add_operation(m.from.clone(), m.to.clone());
        performed.push((m.from.clone(), m.to.clone()));
    }
    apply_moves(&mut fs, &performed);

    // Someone deletes the moved a.png before the revert runs.
    let i = fs.iter().position(|p| p == "d/Images/a.png").unwrap();
    fs.remove(i);

    let rev = plan_revert(&log);
    let mut reverted: usize = 0;
    let mut skipped: usize = 0;
    for op in &rev {
        let to_exists = fs.iter().any(|p| p == &op.to);
        let from_exists = fs.iter().any(|p| p == &op.from);
        match revert_action(false, to_exists, from_exists, true) {
            RevertAction::Perform => {
                apply_moves(&mut fs, &[(op.to.clone(), op.from.clone())]);
                reverted += 1;
            },
            _ => skipped += 1,
        }
    }
    assert_eq!(reverted, 1);
    assert_eq!(skipped, 1);
    assert!(fs.contains(&"d/b.pdf".to_string()));
    assert!(!fs.contains(&"d/a.png".to_string()));
    // The log is still cleared: one operation succeeded.
    assert!(should_clear_log(false, reverted));
}
