use rsure::cli::{add_name_tag, decode_tag, decode_tags, format_row, format_versions, StoreVersion};
use rsure::store::{dec_string, store_versions, tags_to_bytes, DeltaInfo};
use rsure::Version;

#[test]
fn decode_tag_splits_at_first_eq() {
    let (k, v) = decode_tag("key=value");
    assert_eq!(k, "key");
    assert_eq!(v, "value");
    let (k2, v2) = decode_tag("a=b=c");
    assert_eq!(k2, "a");
    assert_eq!(v2, "b=c");
    let (k3, v3) = decode_tag("empty=");
    assert_eq!(k3, "empty");
    assert_eq!(v3, "");
}

#[test]
fn decode_tags_sorts_keys() {
    let args = vec!["two=2".to_string(), "one=1".to_string()];
    let tags = decode_tags(&args);
    assert_eq!(tags.len(), 2);
    assert_eq!(tags[0], ("one".to_string(), "1".to_string()));
    assert_eq!(tags[1], ("two".to_string(), "2".to_string()));
}

#[test]
fn decode_tags_last_binding_wins() {
    let args = vec!["a=1".to_string(), "b=2".to_string(), "a=3".to_string()];
    let tags = decode_tags(&args);
    assert_eq!(tags.len(), 2);
    assert_eq!(tags[0], ("a".to_string(), "3".to_string()));
    assert_eq!(tags[1], ("b".to_string(), "2".to_string()));
}

#[test]
fn add_name_tag_fills_missing_keys() {
    let mut tags = decode_tags(&vec!["other=x".to_string()]);
    add_name_tag(&mut tags, "/scan/here".to_string());
    assert!(tags.iter().any(|p| p.0 == "name"));
    assert!(tags.iter().any(|p| p.0 == "dir" && p.1 == "/scan/here"));
    assert!(tags.iter().any(|p| p.0 == "other" && p.1 == "x"));
    // keys stay sorted after the insertions
    assert_eq!(tags[0].0, "dir");
    assert_eq!(tags[2].0, "other");

    let mut given = decode_tags(&vec!["name=kept".to_string(), "dir=kept-dir".to_string()]);
    add_name_tag(&mut given, "/ignored".to_string());
    assert_eq!(given.len(), 2);
    assert_eq!(given[0], ("dir".to_string(), "kept-dir".to_string()));
    assert_eq!(given[1], ("name".to_string(), "kept".to_string()));
}

#[test]
fn format_row_exact() {
    let r = format_row(&Version::Latest, "2021-01-02 03:04:05", "home");
    assert_eq!(r, "tip  | 2021-01-02 03:04:05 | home");
    let r2 = format_row(&Version::Prior, "t", "n");
    assert_eq!(r2, "prev | t | n");
    let r3 = format_row(&Version::Tagged("5".to_string()), "t", "n");
    assert_eq!(r3, "5    | t | n");
    let r4 = format_row(&Version::Tagged("12345".to_string()), "t", "n");
    assert_eq!(r4, "12345 | t | n");
}

#[test]
fn format_versions_shapes_table() {
    let versions = vec![
        StoreVersion { version: Version::Latest, time: 0, name: "now".to_string() },
        StoreVersion { version: Version::Tagged("5".to_string()), time: 0, name: "old".to_string() },
    ];
    let rows = format_versions(&versions);
    assert_eq!(rows.len(), 4);
    assert_eq!(rows[0], "vers | Time captured       | name");
    assert!(rows[2].starts_with("tip "));
    assert!(rows[2].ends_with("| now"));
    assert!(rows[3].starts_with("5   "));
    assert!(rows[3].ends_with("| old"));
}

#[test]
fn dec_string_writes_decimal() {
    assert_eq!(dec_string(0), "0");
    assert_eq!(dec_string(907), "907");
}

#[test]
fn store_versions_labels_and_tags() {
    let mk = |n: u64, time: &str, name: &str| DeltaInfo {
        number: n,
        count: 0,
        id: n,
        tags: vec![
            (b"name".to_vec(), name.as_bytes().to_vec()),
            (b"time".to_vec(), time.as_bytes().to_vec()),
        ],
    };
    let deltas = vec![mk(3, "30", "c"), mk(2, "20", "b"), mk(1, "10", "a")];
    let entries = store_versions(&deltas);
    assert_eq!(entries.len(), 3);
    assert!(matches!(entries[0].version, Version::Latest));
    assert!(matches!(entries[1].version, Version::Prior));
    match &entries[2].version {
        Version::Tagged(s) => assert_eq!(s, "1"),
        _ => panic!("older deltas are addressed by number"),
    }
    assert_eq!(entries[0].time, 30);
    assert_eq!(entries[2].name, b"a".to_vec());
}

#[test]
fn tags_to_bytes_stamps_and_filters() {
    let tags = vec![
        ("dir".to_string(), "/x".to_string()),
        ("time".to_string(), "overridden".to_string()),
    ];
    let out = tags_to_bytes(&tags, 77);
    assert_eq!(out.len(), 2);
    assert_eq!(out[0], (b"time".to_vec(), b"77".to_vec()));
    assert_eq!(out[1], (b"dir".to_vec(), b"/x".to_vec()));
}
