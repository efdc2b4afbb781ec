use clickhouse_utils::{
    build_entry, decide, plan, scan, sort_by_name, Decision, LedgerEntry, MigrationFile,
};

fn listing(entries: &[(&str, &str)]) -> Vec<(String, String)> {
    entries
        .iter()
        .map(|(n, c)| (n.to_string(), c.to_string()))
        .collect()
}

fn md5_hex_of(content: &str) -> String {
    format!("{:x}", md5::compute(content.as_bytes()))
}

#[test]
fn scan_fingerprints_with_md5() {
    let (files, skipped) = scan(listing(&[("0001_a.sql", "")]));
    assert_eq!(files.len(), 1);
    assert!(skipped.is_empty());
    // The well-known MD5 digest of the empty input.
    assert_eq!(files[0].fingerprint, "d41d8cd98f00b204e9800998ecf8427e");
}

#[test]
fn scan_fingerprint_matches_md5_of_content() {
    let content = "CREATE TABLE t(x Int32)";
    let (files, _) = scan(listing(&[("0001_a.sql", content)]));
    assert_eq!(files[0].fingerprint, md5_hex_of(content));
    assert_eq!(files[0].name, "0001_a.sql");
    assert_eq!(files[0].content, content);
}

#[test]
fn scan_filters_and_sorts() {
    let (files, skipped) = scan(listing(&[
        ("0002_b.sql", "b"),
        ("readme.txt", "not a migration"),
        ("0001_a.sql", "a"),
        ("notes.md", "also not"),
    ]));
    let names: Vec<&str> = files.iter().map(|f| f.name.as_str()).collect();
    assert_eq!(names, vec!["0001_a.sql", "0002_b.sql"]);
    assert_eq!(skipped, vec!["readme.txt".to_string(), "notes.md".to_string()]);
}

#[test]
fn scan_orders_regardless_of_enumeration_order() {
    let a = [("0003_c.sql", "c"), ("0001_a.sql", "a"), ("0002_b.sql", "b")];
    let b = [("0002_b.sql", "b"), ("0003_c.sql", "c"), ("0001_a.sql", "a")];
    let (f1, _) = scan(listing(&a));
    let (f2, _) = scan(listing(&b));
    let n1: Vec<&str> = f1.iter().map(|f| f.name.as_str()).collect();
    let n2: Vec<&str> = f2.iter().map(|f| f.name.as_str()).collect();
    assert_eq!(n1, n2);
    assert_eq!(n1, vec!["0001_a.sql", "0002_b.sql", "0003_c.sql"]);
}

#[test]
fn sort_by_name_is_lexicographic() {
    let (files, _) = scan(listing(&[
        ("0010_j.sql", "j"),
        ("0002_b.sql", "b"),
        ("0001_a.sql", "a"),
    ]));
    let sorted = sort_by_name(files);
    let names: Vec<&str> = sorted.iter().map(|f| f.name.as_str()).collect();
    assert_eq!(names, vec!["0001_a.sql", "0002_b.sql", "0010_j.sql"]);
}

#[test]
fn decide_skips_recorded_unchanged_migration() {
    let (files, _) = scan(listing(&[("0001_a.sql", "a")]));
    let snapshot = vec![build_entry(&files[0], 7)];
    let d = decide(&snapshot, &files[0]);
    assert!(matches!(d, Decision::Skip));
}

#[test]
fn decide_applies_unknown_migration() {
    let (files, _) = scan(listing(&[("0001_a.sql", "a")]));
    let snapshot: Vec<LedgerEntry> = Vec::new();
    let d = decide(&snapshot, &files[0]);
    assert!(matches!(d, Decision::Apply));
}

#[test]
fn decide_reports_drift_with_original_time() {
    let (files, _) = scan(listing(&[("0001_a.sql", "original")]));
    let snapshot = vec![build_entry(&files[0], 42)];
    let (edited, _) = scan(listing(&[("0001_a.sql", "edited")]));
    let d = decide(&snapshot, &edited[0]);
    assert!(matches!(d, Decision::Drift { applied_at: 42 }));
}

#[test]
fn empty_directory_is_a_noop_run() {
    let (files, skipped) = scan(Vec::new());
    assert!(files.is_empty());
    assert!(skipped.is_empty());
    let p = plan(files, &Vec::new());
    assert!(p.applies.is_empty());
    assert!(p.drift.is_none());
}

#[test]
fn non_migration_files_are_inert() {
    let (files, skipped) = scan(listing(&[("readme.txt", "x"), ("data.csv", "y")]));
    assert!(files.is_empty());
    assert_eq!(skipped.len(), 2);
    let p = plan(files, &Vec::new());
    assert!(p.applies.is_empty());
    assert!(p.drift.is_none());
}

/// Runs a plan against an in-memory ledger: applies each migration in
/// order (recording the statement it would execute) and appends its
/// ledger row, exactly as the database driver does.
fn run(
    entries: &[(&str, &str)],
    ledger: &mut Vec<LedgerEntry>,
    clock: &mut u64,
) -> (Vec<String>, Option<(String, u64)>) {
    let (files, _) = scan(listing(entries));
    let p = plan(files, ledger);
    let mut statements = Vec::new();
    for m in &p.applies {
        *clock += 1;
        ledger.push(build_entry(m, *clock));
        statements.push(m.content.clone());
    }
    let drift = p.drift.map(|d| (d.name, d.applied_at));
    (statements, drift)
}

#[test]
fn scenario_fresh_run_applies_in_order() {
    let dir = [
        ("0001_a.sql", "CREATE TABLE t(x Int32)"),
        ("0002_b.sql", "ALTER TABLE t ADD COLUMN y Int32"),
    ];
    let mut ledger: Vec<LedgerEntry> = Vec::new();
    let mut clock = 99;
    let (statements, drift) = run(&dir, &mut ledger, &mut clock);
    assert!(drift.is_none());
    assert_eq!(
        statements,
        vec![
            "CREATE TABLE t(x Int32)".to_string(),
            "ALTER TABLE t ADD COLUMN y Int32".to_string()
        ]
    );
    assert_eq!(ledger.len(), 2);
    assert_eq!(ledger[0].name, "0001_a.sql");
    assert_eq!(ledger[1].name, "0002_b.sql");
    assert_eq!(ledger[0].fingerprint, md5_hex_of("CREATE TABLE t(x Int32)"));
    assert_eq!(
        ledger[1].fingerprint,
        md5_hex_of("ALTER TABLE t ADD COLUMN y Int32")
    );
    assert!(ledger[0].applied_at <= ledger[1].applied_at);
}

#[test]
fn scenario_second_run_is_idempotent() {
    let dir = [
        ("0001_a.sql", "CREATE TABLE t(x Int32)"),
        ("0002_b.sql", "ALTER TABLE t ADD COLUMN y Int32"),
    ];
    let mut ledger: Vec<LedgerEntry> = Vec::new();
    let mut clock = 0;
    run(&dir, &mut ledger, &mut clock);
    let ledger_after_first: Vec<(String, String, u64)> = ledger
        .iter()
        .map(|e| (e.name.clone(), e.fingerprint.clone(), e.applied_at))
        .collect();
    let (statements, drift) = run(&dir, &mut ledger, &mut clock);
    assert!(statements.is_empty());
    assert!(drift.is_none());
    let ledger_after_second: Vec<(String, String, u64)> = ledger
        .iter()
        .map(|e| (e.name.clone(), e.fingerprint.clone(), e.applied_at))
        .collect();
    assert_eq!(ledger_after_first, ledger_after_second);
}

#[test]
fn scenario_drift_halts_the_run() {
    let dir = [
        ("0001_a.sql", "CREATE TABLE t(x Int32)"),
        ("0002_b.sql", "ALTER TABLE t ADD COLUMN y Int32"),
    ];
    let mut ledger: Vec<LedgerEntry> = Vec::new();
    let mut clock = 0;
    run(&dir, &mut ledger, &mut clock);
    let t1 = ledger[0].applied_at;
    // Edit the first script's content after it was applied.
    let edited = [
        ("0001_a.sql", "CREATE TABLE t(x Int64)"),
        ("0002_b.sql", "ALTER TABLE t ADD COLUMN y Int32"),
    ];
    let (statements, drift) = run(&edited, &mut ledger, &mut clock);
    assert_eq!(drift, Some(("0001_a.sql".to_string(), t1)));
    // Nothing is re-executed or newly recorded: not the drifted script,
    // and nothing after it.
    assert!(statements.is_empty());
    assert_eq!(ledger.len(), 2);
}

#[test]
fn drift_in_the_middle_applies_only_earlier_names() {
    // 0001 already recorded unchanged, 0002 recorded but edited on disk,
    // 0003 brand new: the run re-checks 0001 (skip), halts on 0002, and
    // must not apply 0003.
    let mut ledger: Vec<LedgerEntry> = Vec::new();
    let mut clock = 10;
    run(&[("0001_a.sql", "a"), ("0002_b.sql", "b")], &mut ledger, &mut clock);
    let t2 = ledger[1].applied_at;
    let edited = [
        ("0001_a.sql", "a"),
        ("0002_b.sql", "b edited"),
        ("0003_c.sql", "c"),
    ];
    let (statements, drift) = run(&edited, &mut ledger, &mut clock);
    assert_eq!(drift, Some(("0002_b.sql".to_string(), t2)));
    assert!(statements.is_empty());
    assert_eq!(ledger.len(), 2);
}

#[test]
fn new_migration_after_applied_ones_is_applied_alone() {
    let mut ledger: Vec<LedgerEntry> = Vec::new();
    let mut clock = 0;
    run(&[("0001_a.sql", "a")], &mut ledger, &mut clock);
    let (statements, drift) = run(
        &[("0001_a.sql", "a"), ("0002_b.sql", "b")],
        &mut ledger,
        &mut clock,
    );
    assert!(drift.is_none());
    assert_eq!(statements, vec!["b".to_string()]);
    assert_eq!(ledger.len(), 2);
    assert_eq!(ledger[1].name, "0002_b.sql");
}

#[test]
fn build_entry_copies_name_and_fingerprint() {
    let file = MigrationFile {
        name: "0001_a.sql".to_string(),
        fingerprint: "abc".to_string(),
        content: "x".to_string(),
    };
    let e = build_entry(&file, 123);
    assert_eq!(e.name, "0001_a.sql");
    assert_eq!(e.fingerprint, "abc");
    assert_eq!(e.applied_at, 123);
}

#[test]
fn ledger_sql_names_the_migrations_table() {
    assert!(clickhouse_utils::ENSURE_LEDGER_TABLE_SQL.contains("__migrations"));
    assert!(clickhouse_utils::FETCH_LEDGER_SQL.contains("__migrations"));
}
