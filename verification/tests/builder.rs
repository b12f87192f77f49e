//! The builder's pieces: name checks, column lookup, number fields, sorting
//! and rendering.
use crate_names::{
    assemble, column_index, crate_row, first_missing, is_crate_name, parse_u64_field, render,
    sort_by_name, CrateNames, Descriptions,
};
use std::collections::HashMap;

fn rows(names: &[(&str, u64, &str)]) -> Vec<(String, u64, String)> {
    names.iter().map(|(n, id, d)| (n.to_string(), *id, d.to_string())).collect()
}

#[test]
fn crate_names_charset() {
    assert!(is_crate_name("serde_json"));
    assert!(is_crate_name("tokio-util"));
    assert!(is_crate_name("Inflector2"));
    assert!(is_crate_name(""));
    assert!(!is_crate_name("a b"));
    assert!(!is_crate_name("a\tb"));
    assert!(!is_crate_name("é"));
    assert!(!is_crate_name("a.b"));
}

#[test]
fn columns_are_found_by_name() {
    let headers: Vec<String> = ["created_at", "description", "id", "name", "id"]
        .iter()
        .map(|s| s.to_string())
        .collect();
    assert_eq!(column_index(&headers, "id"), Some(2));
    assert_eq!(column_index(&headers, "name"), Some(3));
    assert_eq!(column_index(&headers, "created_at"), Some(0));
    assert_eq!(column_index(&headers, "downloads"), None);
    assert_eq!(column_index(&headers, "Name"), None);
}

#[test]
fn number_fields_read_as_u64() {
    assert_eq!(parse_u64_field(b"0"), Some(0));
    assert_eq!(parse_u64_field(b"42"), Some(42));
    assert_eq!(parse_u64_field(b"+42"), Some(42));
    assert_eq!(parse_u64_field(b"18446744073709551615"), Some(u64::MAX));
    assert_eq!(parse_u64_field(b"18446744073709551616"), None);
    assert_eq!(parse_u64_field(b"99999999999999999999999"), None);
    assert_eq!(parse_u64_field(b""), None);
    assert_eq!(parse_u64_field(b"+"), None);
    assert_eq!(parse_u64_field(b"-1"), None);
    assert_eq!(parse_u64_field(b"1x"), None);
    assert_eq!(parse_u64_field(b" 1"), None);
    for s in ["0", "7", "+7", "0007", "18446744073709551615", "", "x", "-0", "1_000"] {
        assert_eq!(parse_u64_field(s.as_bytes()), s.parse::<u64>().ok(), "{s:?}");
    }
}

#[test]
fn rows_sort_by_folded_name() {
    let sorted = sort_by_name(rows(&[
        ("tokio", 1, ""),
        ("Inflector", 2, ""),
        ("aho-corasick", 3, ""),
        ("a_b", 4, ""),
        ("serde", 5, ""),
        ("a-b", 6, ""),
    ]));
    let names: Vec<&str> = sorted.iter().map(|r| r.0.as_str()).collect();
    // `a-b` and `a_b` fold the same, so either may come first
    let mut first_two = names[..2].to_vec();
    first_two.sort();
    assert_eq!(first_two, ["a-b", "a_b"]);
    assert_eq!(names[2..], ["aho-corasick", "Inflector", "serde", "tokio"]);
    assert!(sort_by_name(Vec::new()).is_empty());
    let mut many = Vec::new();
    for i in 0..300u64 {
        many.push((format!("c{}", (i * 7919) % 300), i, String::new()));
    }
    let sorted = sort_by_name(many);
    assert_eq!(sorted.len(), 300);
    for pair in sorted.windows(2) {
        assert!(pair[0].0 <= pair[1].0);
    }
}

#[test]
fn rows_without_default_version_are_skipped() {
    let downloads: HashMap<u64, u64> = [(1, 5)].into_iter().collect();
    let version_num: HashMap<u64, String> = [(10, "1.0.0".to_string())].into_iter().collect();
    let default_version: HashMap<u64, u64> = [(1, 10), (2, 99)].into_iter().collect();
    let output = render(
        &rows(&[("a", 1, "first"), ("b", 2, "no version"), ("c", 3, "no default")]),
        &downloads,
        &version_num,
        &default_version,
    );
    assert_eq!(output.crate_count, 1);
    assert_eq!(output.skipped_no_version, 2);
    assert_eq!(output.names_tsv, "a\t1.0.0\t20\n");
    assert_eq!(output.descriptions_tsv, "a\tfirst\n");
}

#[test]
fn rendered_lines_carry_rank_digits() {
    let downloads: HashMap<u64, u64> = [(1, 0), (2, 1), (3, u64::MAX)].into_iter().collect();
    let version_num: HashMap<u64, String> = [(1, "0.1.0".to_string())].into_iter().collect();
    let default_version: HashMap<u64, u64> = [(1, 1), (2, 1), (3, 1)].into_iter().collect();
    let output = assemble(
        rows(&[("z", 3, ""), ("y", 2, ""), ("x", 1, "")]),
        &downloads,
        &version_num,
        &default_version,
    );
    assert_eq!(output.names_tsv, "x\t0.1.0\t0\ny\t0.1.0\t8\nz\t0.1.0\t255\n");
    assert_eq!(output.descriptions_tsv, "");
    let names = CrateNames::from_tsv(output.names_tsv).unwrap();
    assert_eq!(names.get("Z").unwrap().rank, 255);
}

#[test]
fn assembled_artifacts_are_in_folded_order() {
    // Sorted by folded name, an upper-case name sorts among the lower-case
    // ones, and the reader accepts the artifact.
    let downloads: HashMap<u64, u64> = HashMap::new();
    let version_num: HashMap<u64, String> = [(1, "1.0.0".to_string())].into_iter().collect();
    let default_version: HashMap<u64, u64> = [(1, 1), (2, 1), (3, 1)].into_iter().collect();
    let output = assemble(
        rows(&[("aho-corasick", 1, "x"), ("Inflector", 2, "y"), ("a0", 3, "")]),
        &downloads,
        &version_num,
        &default_version,
    );
    assert_eq!(output.names_tsv, "a0\t1.0.0\t0\naho-corasick\t1.0.0\t0\nInflector\t1.0.0\t0\n");
    assert_eq!(output.descriptions_tsv, "aho-corasick\tx\nInflector\ty\n");
    let names = CrateNames::from_zstd(&output.names_zst().unwrap()).unwrap();
    assert_eq!(names.len(), 3);
    assert_eq!(names.get("inflector").unwrap().name, "Inflector");
    let descriptions = Descriptions::from_zstd(&output.descriptions_zst().unwrap()).unwrap();
    assert_eq!(descriptions.get("aho_corasick").unwrap(), "x");
}

#[test]
fn dash_sorts_as_underscore() {
    // `a-b` folds to `a_b`, which sorts after `a0` (`_` is above `0`), though
    // `-` is below `0` by bytes.
    let downloads: HashMap<u64, u64> = HashMap::new();
    let version_num: HashMap<u64, String> = [(1, "1.0.0".to_string())].into_iter().collect();
    let default_version: HashMap<u64, u64> = [(1, 1), (2, 1)].into_iter().collect();
    let output = assemble(rows(&[("a-b", 1, ""), ("a0", 2, "")]), &downloads, &version_num, &default_version);
    assert_eq!(output.names_tsv, "a0\t1.0.0\t0\na-b\t1.0.0\t0\n");
    assert!(CrateNames::from_tsv(output.names_tsv).is_ok());
}

#[test]
fn crate_rows_from_records() {
    let row = crate_row(Some("7"), Some("serde"), Some("  A\tframework\n")).unwrap().unwrap();
    assert_eq!(row, ("serde".to_string(), 7, "A framework".to_string()));
    let row = crate_row(Some("+8"), Some("x"), None).unwrap().unwrap();
    assert_eq!(row, ("x".to_string(), 8, String::new()));
    assert_eq!(crate_row(None, Some("serde"), Some("d")), Ok(None));
    assert_eq!(crate_row(Some("7"), None, Some("d")), Ok(None));
    assert_eq!(crate_row(Some("seven"), Some("serde"), Some("d")), Ok(None));
    assert_eq!(crate_row(Some("7"), Some("bad name"), None), Err("bad name".to_string()));
    // a record without an id is skipped before its name is checked
    assert_eq!(crate_row(Some(""), Some("bad name"), None), Ok(None));
}

#[test]
fn first_missing_table() {
    assert_eq!(first_missing(&[true, true, true, true]), None);
    assert_eq!(first_missing(&[true, false, true, false]), Some(1));
    assert_eq!(first_missing(&[false, false, false, false]), Some(0));
    assert_eq!(first_missing(&[]), None);
}

#[test]
fn compression_succeeds() {
    let downloads: HashMap<u64, u64> = HashMap::new();
    let version_num: HashMap<u64, String> = HashMap::new();
    let default_version: HashMap<u64, u64> = HashMap::new();
    let output = assemble(Vec::new(), &downloads, &version_num, &default_version);
    assert!(output.names_zst().is_ok());
    assert!(output.descriptions_zst().is_ok());
    let names = CrateNames::from_zstd(&output.names_zst().unwrap()).unwrap();
    assert!(names.is_empty());
}
