//! The readers on small artifacts written by hand.
use crate_names::{CrateNames, Descriptions, Error};

const NAMES: &str = "\
Inflector\t0.11.4\t200
serde\t1.0.228\t240
Serde-Derive\t1.0.228\t236
serde_json\t1.0.140\t235
tokio\t1.45.0\t238
tokio_stream\t0.1.17\t228
tokio-util\t0.7.15\t230
";

fn names() -> CrateNames {
    CrateNames::from_tsv(NAMES.to_string()).unwrap()
}

#[test]
fn lookups_are_folded() {
    let names = names();
    assert_eq!(names.len(), 7);
    assert!(!names.is_empty());
    let util = names.get("Tokio_Util").unwrap();
    assert_eq!(util.name, "tokio-util");
    assert_eq!(util.version, "0.7.15");
    assert_eq!(util.rank, 230);
    assert_eq!(names.get("TOKIO").unwrap().name, "tokio");
    assert_eq!(names.get("inflector").unwrap().name, "Inflector");
    assert_eq!(names.get("serde-derive").unwrap().name, "Serde-Derive");
    assert_eq!(names.get("tokio-stream").unwrap().name, "tokio_stream");
    assert!(names.get("tokio-").is_none());
    assert!(names.get("").is_none());
}

#[test]
fn every_entry_is_found_by_its_own_name() {
    let names = names();
    for index in 0..names.len() {
        let entry = names.entry_at(index).unwrap();
        assert_eq!(names.get(entry.name), Some(entry));
    }
    assert!(names.entry_at(names.len()).is_none());
    assert!(names.entry_at(usize::MAX).is_none());
}

#[test]
fn prefix_queries_agree() {
    let names = names();
    for prefix in ["", "s", "SERDE", "serde_", "serde-d", "tokio", "tokio_", "x", "Tokio-Util"] {
        let range = names.prefix_indices(prefix);
        let entries = names.prefix(prefix);
        assert_eq!(names.count(prefix), range.len());
        assert_eq!(entries.len(), range.len());
        for (offset, entry) in entries.iter().enumerate() {
            assert_eq!(names.entry_at(range.start + offset), Some(*entry));
        }
    }
    let serde: Vec<&str> = names.prefix("SERDE").iter().map(|e| e.name).collect();
    assert_eq!(serde, ["serde", "Serde-Derive", "serde_json"]);
    let tokio_dash: Vec<&str> = names.prefix("tokio-").iter().map(|e| e.name).collect();
    assert_eq!(tokio_dash, ["tokio_stream", "tokio-util"]);
    assert_eq!(names.prefix_indices("tokio"), 4..7);
    assert_eq!(names.prefix_indices("zzz"), 7..7);
    assert_eq!(names.prefix_indices("a"), 0..0);
    assert_eq!(names.count("s"), 3);
}

#[test]
fn typeahead_orders_by_rank_then_name() {
    let names = names();
    let all: Vec<&str> = names.typeahead("", 100).iter().map(|e| e.name).collect();
    assert_eq!(
        all,
        ["serde", "tokio", "Serde-Derive", "serde_json", "tokio-util", "tokio_stream", "Inflector"]
    );
    let top: Vec<&str> = names.typeahead("tok", 2).iter().map(|e| e.name).collect();
    assert_eq!(top, ["tokio", "tokio-util"]);
    assert!(names.typeahead("tok", 0).is_empty());
    assert!(names.typeahead("nothing", 5).is_empty());
}

#[test]
fn typeahead_ties_are_broken_by_name_bytes() {
    let names = CrateNames::from_tsv("a\t1\t7\nB\t1\t7\nc\t1\t9\nD\t1\t7\n".to_string()).unwrap();
    let order: Vec<&str> = names.typeahead("", 4).iter().map(|e| e.name).collect();
    assert_eq!(order, ["c", "B", "D", "a"]);
    let order: Vec<&str> = names.typeahead("", 2).iter().map(|e| e.name).collect();
    assert_eq!(order, ["c", "B"]);
}

#[test]
fn lines_without_trailing_newline_and_empty_artifacts() {
    let names = CrateNames::from_tsv("a\t1.0.0\t5\nb\t2.0.0\t+7".to_string()).unwrap();
    assert_eq!(names.len(), 2);
    assert_eq!(names.get("b").unwrap().version, "2.0.0");
    assert_eq!(names.get("b").unwrap().rank, 7);
    let empty = CrateNames::from_tsv(String::new()).unwrap();
    assert_eq!(empty.len(), 0);
    assert!(empty.is_empty());
    assert!(empty.get("a").is_none());
    assert_eq!(empty.count(""), 0);
    assert!(empty.typeahead("", 3).is_empty());
}

#[test]
fn rank_fields_read_as_u8() {
    assert_eq!(CrateNames::from_tsv("a\tv\t007\n".into()).unwrap().get("a").unwrap().rank, 7);
    assert_eq!(CrateNames::from_tsv("a\tv\t255\n".into()).unwrap().get("a").unwrap().rank, 255);
    for bad in ["a\tv\t256\n", "a\tv\t\n", "a\tv\t+\n", "a\tv\t-1\n", "a\tv\t 5\n", "a\tv\t5\tx\n", "a\n"] {
        let err = CrateNames::from_tsv(bad.to_string()).unwrap_err();
        assert!(matches!(err, Error::Malformed { line: 0 }), "{bad:?}");
    }
}

#[test]
fn first_bad_line_is_reported() {
    let err = CrateNames::from_tsv("a\t1\t1\nb\t1\t1\nB\t1\t1\nc\t1\t1\n".into()).unwrap_err();
    assert!(matches!(err, Error::Unsorted { line: 2 }));
    let err = CrateNames::from_tsv("a-b\t1\t1\na_b\t1\t1\n".into()).unwrap_err();
    assert!(matches!(err, Error::Unsorted { line: 1 }));
    let err = CrateNames::from_tsv("a\t1\t1\nb\t1\nc\t1\tx\n".into()).unwrap_err();
    assert!(matches!(err, Error::Malformed { line: 1 }));
    // order is checked before fields
    let err = CrateNames::from_tsv("b\t1\nb\t1\t1\n".into()).unwrap_err();
    assert!(matches!(err, Error::Unsorted { line: 1 }));
    // an empty line sorts first, and is not an entry
    let err = CrateNames::from_tsv("\na\t1\t1\n".into()).unwrap_err();
    assert!(matches!(err, Error::Malformed { line: 0 }));
}

#[test]
fn decompression_and_encoding_errors() {
    let err = CrateNames::from_zstd(b"not zstd").unwrap_err();
    assert!(matches!(err, Error::Zstd(_)));
    let err = Descriptions::from_zstd(b"not zstd").unwrap_err();
    assert!(matches!(err, Error::Zstd(_)));
    let invalid = zstd::encode_all(&b"a\t1\t\xff\n"[..], 3).unwrap();
    let err = CrateNames::from_zstd(&invalid).unwrap_err();
    assert!(matches!(err, Error::Utf8(_)));
    let err = CrateNames::from_decompressed(b"\xc3\x28\t1\t1\n".to_vec()).unwrap_err();
    assert!(matches!(err, Error::Utf8(_)));
    let names = CrateNames::from_decompressed("é\t1\t2\n".as_bytes().to_vec()).unwrap();
    assert_eq!(names.get("é").unwrap().rank, 2);
    let empty = CrateNames::from_zstd(&zstd::encode_all(&b""[..], 3).unwrap()).unwrap();
    assert!(empty.is_empty());
}

#[test]
fn descriptions_pairs_and_lookup() {
    let text = "Alpha\tfirst one\nbeta\nbeta-two\tsecond\twith a tab\ngamma\t\n";
    let descriptions = Descriptions::from_tsv(text.to_string()).unwrap();
    assert_eq!(descriptions.len(), 4);
    assert!(!descriptions.is_empty());
    assert_eq!(descriptions.get("alpha"), Some("first one"));
    assert_eq!(descriptions.get("BETA"), None);
    assert_eq!(descriptions.get("beta_two"), Some("second\twith a tab"));
    assert_eq!(descriptions.get("gamma"), Some(""));
    assert_eq!(descriptions.get("delta"), None);
    let pairs = descriptions.iter();
    assert_eq!(
        pairs,
        [("Alpha", "first one"), ("beta-two", "second\twith a tab"), ("gamma", "")]
    );
    let err = Descriptions::from_tsv("b\tx\na\ty\n".to_string()).unwrap_err();
    assert!(matches!(err, Error::Unsorted { line: 1 }));
    let descriptions = Descriptions::from_decompressed(b"x\ty".to_vec()).unwrap();
    assert_eq!(descriptions.get("X"), Some("y"));
}

#[test]
fn error_messages() {
    assert_eq!(Error::TooLarge.message(), "artifact exceeds supported size");
    assert_eq!(
        Error::Unsorted { line: 1 }.message(),
        "artifact not sorted by name at line 1"
    );
    assert_eq!(Error::Malformed { line: 0 }.message(), "malformed artifact line 0");
    assert_eq!(
        Error::Malformed { line: 1234567 }.message(),
        "malformed artifact line 1234567"
    );
    let err = CrateNames::from_zstd(b"not zstd").unwrap_err();
    assert!(matches!(err, Error::Zstd(_)));
    assert!(err.message().starts_with("zstd decompression failed: "));
    let err = CrateNames::from_decompressed(vec![0xff]).unwrap_err();
    assert!(matches!(err, Error::Utf8(_)));
    let message = err.message();
    assert!(message.starts_with("artifact was not valid utf8: "));
    assert!(message.len() > "artifact was not valid utf8: ".len());
}

#[test]
fn smaller_typeahead_limit_gives_a_prefix() {
    let names = CrateNames::from_tsv(NAMES.to_string()).unwrap();
    let all: Vec<&str> = names.typeahead("", 100).iter().map(|e| e.name).collect();
    assert_eq!(all.len(), names.len());
    for limit in 0..=names.len() {
        let some: Vec<&str> = names.typeahead("", limit).iter().map(|e| e.name).collect();
        assert_eq!(some, all[..limit]);
    }
    assert!(names.typeahead("tok", 0).is_empty());
    let mut every: Vec<&str> = names.typeahead("tok", 3).iter().map(|e| e.name).collect();
    every.sort();
    let mut prefixed: Vec<&str> = names.prefix("tok").iter().map(|e| e.name).collect();
    prefixed.sort();
    assert_eq!(every, prefixed);
}
