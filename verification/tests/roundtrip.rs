//! Build artifacts from the tables of a small synthetic dump and read them back.
use crate_names::{
    assemble, flatten_whitespace, rank_from_downloads, BuildOutput, CrateNames, Descriptions, Error,
};
use std::collections::HashMap;

/// The four tables the builder consumes, as a dump of four crates holds them.
fn synthetic_dump() -> BuildOutput {
    // crate_downloads.csv
    let downloads: HashMap<u64, u64> =
        [(1, 1_000_000), (2, 50), (3, 999_999_999), (4, 0)].into_iter().collect();
    // crates.csv: (name, id, description), descriptions flattened as read
    let crates: Vec<(String, u64, String)> = [
        ("serde", 1, "Serialization framework"),
        ("server-thing", 2, "A web server"),
        ("serve", 3, "Multi\nline\t desc"),
        ("zzz-no-description", 4, ""),
    ]
    .into_iter()
    .map(|(name, id, description)| (name.to_string(), id, flatten_whitespace(description)))
    .collect();
    // versions.csv: version id -> number
    let version_num: HashMap<u64, String> = [
        (10, "1.0.219"),
        (11, "0.9.0"),
        (20, "0.2.1"),
        (30, "3.1.4"),
        (40, "0.0.1"),
    ]
    .into_iter()
    .map(|(id, num)| (id, num.to_string()))
    .collect();
    // default_versions.csv: crate id -> version id
    let default_version: HashMap<u64, u64> =
        [(1, 10), (2, 20), (3, 30), (4, 40)].into_iter().collect();
    assemble(crates, &downloads, &version_num, &default_version)
}

#[test]
fn roundtrip() {
    let output = synthetic_dump();
    assert_eq!(output.crate_count, 4);
    assert_eq!(output.skipped_no_version, 0);

    let names = CrateNames::from_zstd(&output.names_zst().unwrap()).unwrap();
    assert_eq!(names.len(), 4);

    let serde = names.get("serde").unwrap();
    assert_eq!(serde.version, "1.0.219");
    assert_eq!(serde.rank, rank_from_downloads(1_000_000));
    assert!(names.get("nonexistent").is_none());

    // prefix iteration is in byte order
    let prefixed: Vec<&str> = names.prefix("ser").iter().map(|e| e.name).collect();
    assert_eq!(prefixed, ["serde", "serve", "server-thing"]);
    assert_eq!(names.prefix("serde").len(), 1);
    assert_eq!(names.prefix("q").len(), 0);
    assert_eq!(names.prefix("").len(), 4);

    // typeahead is ordered by rank: serve (999M) > serde (1M) > server-thing (50)
    let typeahead: Vec<&str> = names.typeahead("ser", 2).iter().map(|e| e.name).collect();
    assert_eq!(typeahead, ["serve", "serde"]);

    let descriptions = Descriptions::from_zstd(&output.descriptions_zst().unwrap()).unwrap();
    // zzz-no-description is omitted
    assert_eq!(descriptions.len(), 3);
    assert_eq!(
        descriptions.get("serde").unwrap(),
        "Serialization framework"
    );
    // whitespace was flattened
    assert_eq!(descriptions.get("serve").unwrap(), "Multi line desc");
    assert!(descriptions.get("zzz-no-description").is_none());
}

#[test]
fn unsorted_artifacts_are_rejected() {
    let err = CrateNames::from_tsv("b\t1.0.0\t5\na\t1.0.0\t5\n".into()).unwrap_err();
    assert!(matches!(err, Error::Unsorted { line: 1 }));

    let err = CrateNames::from_tsv("a\t1.0.0\t5\na\t1.0.0\t5\n".into()).unwrap_err();
    assert!(matches!(err, Error::Unsorted { line: 1 }));
}

#[test]
fn malformed_artifacts_are_rejected() {
    let err = CrateNames::from_tsv("a\t1.0.0\n".into()).unwrap_err();
    assert!(matches!(err, Error::Malformed { line: 0 }));

    let err = CrateNames::from_tsv("a\t1.0.0\tnot-a-rank\n".into()).unwrap_err();
    assert!(matches!(err, Error::Malformed { line: 0 }));
}

#[test]
fn assembled_descriptions_read_back_as_pairs() {
    let output = synthetic_dump();
    assert_eq!(
        output.descriptions_tsv,
        "serde\tSerialization framework\nserve\tMulti line desc\nserver-thing\tA web server\n"
    );
    let descriptions = Descriptions::from_tsv(output.descriptions_tsv.clone()).unwrap();
    assert_eq!(
        descriptions.iter(),
        vec![
            ("serde", "Serialization framework"),
            ("serve", "Multi line desc"),
            ("server-thing", "A web server"),
        ]
    );
}
