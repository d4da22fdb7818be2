use license_report::cli::{config_from_flags, lockfile_missing_message, select_mode, OutputMode};
use license_report::full::{full_header, full_rows};
use license_report::group::{group_authors, group_by_license, render_group, LicenseGroup};
use license_report::line::{render_line, render_lines};
use license_report::record::{resolved_license, DependencyRecord};

fn rec(
    name: &str,
    version: &str,
    source: &str,
    license: Option<&str>,
    license_texts: Option<Vec<&str>>,
    authors: Option<Vec<&str>>,
) -> DependencyRecord {
    DependencyRecord {
        name: name.to_string(),
        version: version.to_string(),
        source: source.to_string(),
        license: license.map(|l| l.to_string()),
        license_texts: license_texts.map(|ts| ts.iter().map(|t| t.to_string()).collect()),
        authors: authors.map(|a| a.iter().map(|x| x.to_string()).collect()),
    }
}

fn three_records() -> Vec<DependencyRecord> {
    vec![
        rec("alpha", "0.1.0", "registry", Some("MIT"), None, None),
        rec("beta", "0.2.0", "registry", Some("MIT"), None, None),
        rec("gamma", "0.3.0", "registry", None, None, None),
    ]
}

#[test]
fn resolved_license_present() {
    let r = rec("a", "1", "s", Some("MIT"), None, None);
    assert_eq!(resolved_license(&r), "MIT");
}

#[test]
fn resolved_license_absent_is_na() {
    let r = rec("a", "1", "s", None, None, None);
    assert_eq!(resolved_license(&r), "N/A");
}

#[test]
fn full_header_fields() {
    let h = full_header();
    assert_eq!(h, vec!["library", "license", "license-text"]);
}

#[test]
fn full_rows_one_per_text() {
    let records = vec![rec(
        "alpha",
        "0.1.0",
        "registry",
        Some("MIT"),
        Some(vec!["text one", "text two"]),
        None,
    )];
    let rows = full_rows(&records);
    assert_eq!(rows.len(), 2);
    assert_eq!(rows[0].library, "alpha");
    assert_eq!(rows[0].license, "MIT");
    assert_eq!(rows[0].license_text, "text one");
    assert_eq!(rows[1].library, "alpha");
    assert_eq!(rows[1].license, "MIT");
    assert_eq!(rows[1].license_text, "text two");
}

#[test]
fn full_rows_absent_texts_single_na_row() {
    let records = vec![rec("alpha", "0.1.0", "registry", Some("MIT"), None, None)];
    let rows = full_rows(&records);
    assert_eq!(rows.len(), 1);
    assert_eq!(rows[0].library, "alpha");
    assert_eq!(rows[0].license, "MIT");
    assert_eq!(rows[0].license_text, "N/A");
}

#[test]
fn full_rows_absent_license_is_na() {
    let records = vec![rec(
        "alpha",
        "0.1.0",
        "registry",
        None,
        Some(vec!["text"]),
        None,
    )];
    let rows = full_rows(&records);
    assert_eq!(rows.len(), 1);
    assert_eq!(rows[0].license, "N/A");
    assert_eq!(rows[0].license_text, "text");
}

#[test]
fn full_rows_empty_texts_single_na_row() {
    let records = vec![rec(
        "alpha",
        "0.1.0",
        "registry",
        Some("MIT"),
        Some(vec![]),
        None,
    )];
    let rows = full_rows(&records);
    assert_eq!(rows.len(), 1);
    assert_eq!(rows[0].library, "alpha");
    assert_eq!(rows[0].license, "MIT");
    assert_eq!(rows[0].license_text, "N/A");
}

#[test]
fn full_rows_count_is_sum_of_slots() {
    let records = vec![
        rec("a", "1", "s", Some("MIT"), Some(vec!["t1", "t2"]), None),
        rec("b", "1", "s", None, None, None),
        rec("c", "1", "s", Some("ISC"), Some(vec!["t3"]), None),
        rec("d", "1", "s", Some("ISC"), Some(vec![]), None),
    ];
    let rows = full_rows(&records);
    assert_eq!(rows.len(), 5);
}

#[test]
fn line_without_authors() {
    let r = rec("alpha", "0.1.0", "registry", Some("MIT"), None, Some(vec!["ann"]));
    let line = render_line(&r, false);
    assert_eq!(line, "alpha: 0.1.0, \"MIT\", registry");
    assert!(!line.contains("by"));
    assert!(!line.contains("ann"));
}

#[test]
fn line_with_authors() {
    let r = rec(
        "alpha",
        "0.1.0",
        "registry",
        Some("MIT"),
        None,
        Some(vec!["ann", "zed"]),
    );
    let line = render_line(&r, true);
    assert_eq!(line, "alpha: 0.1.0, \"MIT\", registry, by ann, zed");
}

#[test]
fn line_with_authors_flag_but_none_listed() {
    let r = rec("alpha", "0.1.0", "registry", Some("MIT"), None, None);
    let line = render_line(&r, true);
    assert_eq!(line, "alpha: 0.1.0, \"MIT\", registry, by ");
}

#[test]
fn line_absent_license_is_na() {
    let r = rec("gamma", "0.3.0", "registry", None, None, None);
    let line = render_line(&r, false);
    assert_eq!(line, "gamma: 0.3.0, \"N/A\", registry");
}

#[test]
fn three_records_one_per_line_order() {
    let lines = render_lines(&three_records(), false);
    assert_eq!(
        lines,
        vec![
            "alpha: 0.1.0, \"MIT\", registry",
            "beta: 0.2.0, \"MIT\", registry",
            "gamma: 0.3.0, \"N/A\", registry",
        ]
    );
}

#[test]
fn three_records_grouped() {
    let groups = group_by_license(&three_records());
    assert_eq!(groups.len(), 2);
    assert_eq!(groups[0].license, "MIT");
    assert_eq!(groups[1].license, "N/A");
    assert_eq!(render_group(&groups[0], false), "MIT (2): alpha, beta");
    assert_eq!(render_group(&groups[1], false), "N/A (1): gamma");
}

#[test]
fn grouped_names_cover_all_records() {
    let groups = group_by_license(&three_records());
    let mut names: Vec<String> = Vec::new();
    for g in &groups {
        for m in &g.members {
            names.push(m.name.clone());
        }
    }
    names.sort();
    assert_eq!(names, vec!["alpha", "beta", "gamma"]);
}

#[test]
fn grouped_ascending_license_order() {
    let records = vec![
        rec("m", "1", "s", Some("MIT"), None, None),
        rec("a", "1", "s", Some("Apache-2.0"), None, None),
        rec("b", "1", "s", Some("BSD-3-Clause"), None, None),
        rec("m2", "1", "s", Some("MIT"), None, None),
    ];
    let groups = group_by_license(&records);
    let licenses: Vec<&str> = groups.iter().map(|g| g.license.as_str()).collect();
    assert_eq!(licenses, vec!["Apache-2.0", "BSD-3-Clause", "MIT"]);
    assert_eq!(groups[2].members.len(), 2);
    assert_eq!(groups[2].members[0].name, "m");
    assert_eq!(groups[2].members[1].name, "m2");
}

#[test]
fn grouped_authors_deduplicated_and_sorted() {
    let records = vec![
        rec("a", "1", "s", Some("MIT"), None, Some(vec!["zed", "ann"])),
        rec("b", "1", "s", Some("MIT"), None, Some(vec!["ann"])),
        rec("c", "1", "s", Some("MIT"), None, None),
    ];
    let groups = group_by_license(&records);
    assert_eq!(groups.len(), 1);
    let authors = group_authors(&groups[0]);
    assert_eq!(authors, vec!["ann", "zed"]);
    assert_eq!(
        render_group(&groups[0], true),
        "MIT (3)\na, b, c\nby ann, zed"
    );
}

#[test]
fn grouped_block_without_authors_shows_none() {
    let records = vec![rec("a", "1", "s", Some("MIT"), None, Some(vec!["ann"]))];
    let groups = group_by_license(&records);
    let block = render_group(&groups[0], false);
    assert_eq!(block, "MIT (1): a");
    assert!(!block.contains("by"));
    assert!(!block.contains("ann"));
}

#[test]
fn empty_record_list() {
    let records: Vec<DependencyRecord> = Vec::new();
    assert_eq!(full_rows(&records).len(), 0);
    assert_eq!(render_lines(&records, true).len(), 0);
    assert_eq!(group_by_license(&records).len(), 0);
}

#[test]
fn mode_precedence_full_wins() {
    assert_eq!(select_mode(true, true), OutputMode::FullLicenses);
    assert_eq!(select_mode(true, false), OutputMode::FullLicenses);
}

#[test]
fn mode_precedence_one_per_line_then_grouped() {
    assert_eq!(select_mode(false, true), OutputMode::OnePerLine);
    assert_eq!(select_mode(false, false), OutputMode::GroupedByLicense);
}

#[test]
fn config_carries_author_flag() {
    let c = config_from_flags(true, true, false);
    assert!(c.display_authors);
    assert_eq!(c.mode, OutputMode::OnePerLine);
    let c2 = config_from_flags(false, false, true);
    assert!(!c2.display_authors);
    assert_eq!(c2.mode, OutputMode::FullLicenses);
}

#[test]
fn lockfile_missing_message_embeds_error() {
    assert_eq!(
        lockfile_missing_message("no such file"),
        "Cargo.lock file not found. Try building the project first.\nno such file"
    );
}

#[test]
fn grouped_multiline_license_count_rendering() {
    let mut records: Vec<DependencyRecord> = Vec::new();
    for i in 0..12 {
        records.push(rec(&format!("crate{:02}", i), "1", "s", Some("MIT"), None, None));
    }
    let groups = group_by_license(&records);
    assert_eq!(groups.len(), 1);
    let block = render_group(&groups[0], false);
    assert!(block.starts_with("MIT (12): crate00, crate01"));
}

#[test]
fn group_model_holds_duplicate_of_record() {
    let groups = group_by_license(&vec![rec(
        "alpha",
        "0.1.0",
        "registry",
        Some("MIT"),
        Some(vec!["text"]),
        Some(vec!["ann"]),
    )]);
    let m = &groups[0].members[0];
    assert_eq!(m.name, "alpha");
    assert_eq!(m.version, "0.1.0");
    assert_eq!(m.source, "registry");
    assert_eq!(m.license.as_deref(), Some("MIT"));
    assert_eq!(m.license_texts.as_deref(), Some(&["text".to_string()][..]));
    assert_eq!(m.authors.as_deref(), Some(&["ann".to_string()][..]));
}
