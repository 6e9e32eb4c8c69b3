use sls::dates::Date;
use sls::filter::{filter_entries, EntryInfo, FilterConfig};
use sls::parse_size;

fn entry(name: &str, size: u64) -> EntryInfo {
    EntryInfo {
        name: name.to_string(),
        path: name.to_string(),
        size,
        is_dir: false,
        readonly: false,
        modified_date: None,
        modified_display: None,
    }
}

fn dated(name: &str, year: i32, month: u32, day: u32) -> EntryInfo {
    let mut e = entry(name, 1);
    e.modified_date = Some(Date { year, month, day });
    e
}

fn unrestricted() -> FilterConfig {
    FilterConfig::new(None, None, None, true, None, None, None)
}

#[test]
fn min_size_excludes_small_files() {
    let cfg = FilterConfig::new(None, parse_size("10"), None, false, None, None, None);
    let entries = vec![entry("small.txt", 4)];
    let records = filter_entries(&cfg, &entries);
    assert!(records.is_empty());
}

#[test]
fn max_size_bound_is_inclusive() {
    let cfg = FilterConfig::new(None, None, parse_size("10"), false, None, None, None);
    let entries = vec![entry("a.txt", 10), entry("b.txt", 11)];
    let records = filter_entries(&cfg, &entries);
    assert_eq!(records.len(), 1);
    assert_eq!(records[0].path, "a.txt");
}

#[test]
fn hidden_flag_admits_dotfiles() {
    let entries = vec![entry(".hiddenfile", 4)];
    let with_flag = FilterConfig::new(None, None, None, true, None, None, None);
    let without_flag = FilterConfig::new(None, None, None, false, None, None, None);
    let shown = filter_entries(&with_flag, &entries);
    assert_eq!(shown.len(), 1);
    assert_eq!(shown[0].path, ".hiddenfile");
    assert!(filter_entries(&without_flag, &entries).is_empty());
}

#[test]
fn extension_filter_keeps_matching_files() {
    let cfg = FilterConfig::new(Some("rs".to_string()), None, None, false, None, None, None);
    let entries = vec![entry("main.rs", 10), entry("readme.md", 10), entry("noext", 10)];
    let records = filter_entries(&cfg, &entries);
    assert_eq!(records.len(), 1);
    assert!(records[0].path.contains(".rs"));
}

#[test]
fn extension_is_case_sensitive_and_exact() {
    let cfg = FilterConfig::new(Some("rs".to_string()), None, None, false, None, None, None);
    let entries = vec![entry("main.RS", 10), entry("main.rsx", 10)];
    assert!(filter_entries(&cfg, &entries).is_empty());
}

#[test]
fn date_range_filter_is_inclusive_and_fails_open() {
    let range = Some((
        Date { year: 2025, month: 1, day: 1 },
        Date { year: 2025, month: 12, day: 31 },
    ));
    let cfg = FilterConfig::new(None, None, None, false, range, None, None);
    let entries = vec![
        dated("in.txt", 2025, 6, 15),
        dated("edge.txt", 2025, 1, 1),
        dated("old.txt", 2024, 12, 31),
        entry("unreadable.txt", 1),
    ];
    let records = filter_entries(&cfg, &entries);
    let paths: Vec<&str> = records.iter().map(|r| r.path.as_str()).collect();
    assert_eq!(paths, vec!["in.txt", "edge.txt", "unreadable.txt"]);
}

#[test]
fn glob_patterns_keep_and_reject() {
    let keep = FilterConfig::new(None, None, None, false, None, Some("*.rs".to_string()), None);
    let entries = vec![entry("main.rs", 1), entry("readme.md", 1)];
    let records = filter_entries(&keep, &entries);
    assert_eq!(records.len(), 1);
    assert_eq!(records[0].path, "main.rs");

    let reject = FilterConfig::new(None, None, None, false, None, None, Some("*test*".to_string()));
    let entries = vec![entry("main.rs", 1), entry("mytest.rs", 1)];
    let records = filter_entries(&reject, &entries);
    assert_eq!(records.len(), 1);
    assert_eq!(records[0].path, "main.rs");
}

#[test]
fn malformed_glob_imposes_no_constraint() {
    let cfg = FilterConfig::new(None, None, None, false, None, Some("a**b".to_string()), None);
    let entries = vec![entry("anything.txt", 1)];
    let records = filter_entries(&cfg, &entries);
    assert_eq!(records.len(), 1);
}

#[test]
fn filtered_results_are_ordered_subset_of_unfiltered() {
    let entries = vec![
        entry("a.rs", 5),
        entry("b.md", 50),
        entry("c.rs", 500),
        entry("d.rs", 5000),
    ];
    let cfg = FilterConfig::new(None, parse_size("100"), None, false, None, None, None);
    let filtered = filter_entries(&cfg, &entries);
    let all = filter_entries(&unrestricted(), &entries);
    assert_eq!(all.len(), entries.len());
    let filtered_paths: Vec<String> = filtered.iter().map(|r| r.path.clone()).collect();
    let all_paths: Vec<String> = all.iter().map(|r| r.path.clone()).collect();
    assert_eq!(filtered_paths, vec!["c.rs".to_string(), "d.rs".to_string()]);
    let mut it = all_paths.iter();
    for p in &filtered_paths {
        assert!(it.any(|q| q == p), "order not preserved for {}", p);
    }
}

#[test]
fn record_carries_metadata() {
    let mut e = entry("dir", 0);
    e.is_dir = true;
    e.readonly = true;
    e.modified_display = Some("2025-01-01 10:00:00".to_string());
    let records = filter_entries(&unrestricted(), &vec![e]);
    assert_eq!(records.len(), 1);
    assert!(records[0].is_dir);
    assert_eq!(records[0].permission, sls::filter::Permission::ReadOnly);
    assert_eq!(records[0].modified.as_deref(), Some("2025-01-01 10:00:00"));
}
