use sls::filter::{FileRecord, Permission};
use sls::render::{entry_line, file_icon, format_entry_line, render_json, render_text_lines};
use serde_json::Value;

fn rec(path: &str, size: u64, is_dir: bool) -> FileRecord {
    FileRecord {
        path: path.to_string(),
        size,
        modified: Some("2025-01-01 10:00:00".to_string()),
        is_dir,
        permission: Permission::ReadWrite,
    }
}

#[test]
fn json_is_valid_and_has_keys() {
    let records = vec![rec("src", 0, true), rec("src/main.rs", 120, false)];
    let doc = render_json(&records);
    let v: Value = serde_json::from_str(&doc).unwrap();
    let arr = v.as_array().unwrap();
    assert_eq!(arr.len(), 2);
    for item in arr {
        assert!(item.get("path").is_some());
        assert!(item.get("size").is_some());
        assert!(item.get("modified").is_some());
        assert!(item.get("is_dir").is_some());
        assert!(item.get("permissions").is_some());
    }
    assert_eq!(arr[0]["path"], "src");
    assert_eq!(arr[0]["is_dir"], true);
    assert_eq!(arr[1]["path"], "src/main.rs");
    assert_eq!(arr[1]["size"], 120);
    assert_eq!(arr[1]["permissions"], "rw-");
    assert_eq!(arr[1]["modified"], "2025-01-01 10:00:00");
}

#[test]
fn json_of_no_records_is_empty_array() {
    assert_eq!(render_json(&vec![]), "[]");
}

#[test]
fn json_null_modified() {
    let mut r = rec("a", 1, false);
    r.modified = None;
    let doc = render_json(&vec![r]);
    let v: Value = serde_json::from_str(&doc).unwrap();
    assert!(v[0]["modified"].is_null());
}

#[test]
fn json_escapes_special_characters() {
    let weird = "a\"b\\c\nd\te\u{1}f";
    let doc = render_json(&vec![rec(weird, 7, false)]);
    let v: Value = serde_json::from_str(&doc).unwrap();
    assert_eq!(v[0]["path"], weird);
}

#[test]
fn icons_by_kind() {
    assert_eq!(file_icon(true, "src"), "\u{1f4c1}");
    assert_eq!(file_icon(false, "main.rs"), "\u{1f980}");
    assert_eq!(file_icon(false, "README.md"), "\u{1f4c4}");
    assert_eq!(file_icon(false, "Cargo.toml"), "\u{2699}\u{fe0f}");
    assert_eq!(file_icon(false, "data.bin"), "\u{1f4e6}");
}

#[test]
fn entry_line_layout() {
    let line = format_entry_line(&rec("dir/main.rs", 120, false), "dir/main.rs");
    assert_eq!(
        line,
        "\u{1f980} dir/main.rs  120 bytes  rw-   2025-01-01 10:00:00"
    );
}

#[test]
fn entry_line_unknown_timestamp() {
    let mut r = rec("x", 3, false);
    r.modified = None;
    let line = format_entry_line(&r, "x");
    assert!(line.ends_with("unknown"));
}

#[test]
fn painted_lines_contain_path_and_size() {
    let records = vec![rec("src", 0, true), rec("src/main.rs", 120, false)];
    let lines = render_text_lines(&records);
    assert_eq!(lines.len(), 2);
    assert!(lines[0].contains("src"));
    assert!(lines[1].contains("src/main.rs"));
    assert!(lines[1].contains("120 bytes"));
    let single = entry_line(&rec("a.md", 7, false));
    assert!(single.contains("a.md"));
    assert!(single.contains("7 bytes"));
}
