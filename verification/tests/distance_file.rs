use talon::{decimal, parse_distance_file, parse_usize, DistanceFile, DistanceMapError};

/// Decodes a distance file's JSON into the loader's input, keeping the
/// order of the `distances` object.
fn decode(json: &str) -> DistanceFile {
    let v: serde_json::Value = serde_json::from_str(json).unwrap();
    DistanceFile {
        version: v["version"].as_u64().unwrap() as u32,
        target_id: v["target_id"].as_u64().map(|t| t as u32),
        map_size: v["map_size"].as_u64().unwrap() as usize,
        distances: v["distances"]
            .as_object()
            .unwrap()
            .iter()
            .map(|(k, d)| (k.clone(), d.as_u64().unwrap() as u32))
            .collect(),
    }
}

fn file(version: u32, map_size: usize, entries: &[(&str, u32)]) -> DistanceFile {
    DistanceFile {
        version,
        target_id: Some(7),
        map_size,
        distances: entries.iter().map(|(k, d)| (k.to_string(), *d)).collect(),
    }
}

#[test]
fn loader_accepts_the_current_schema() {
    let json = r#"{"version":1,"target_id":103,"map_size":65536,"distances":{"100":6,"103":0}}"#;
    let (distances, target_id) = parse_distance_file(&decode(json)).unwrap();
    assert_eq!(distances.len(), 2);
    assert_eq!(target_id, Some(103));
}

#[test]
fn loader_rejects_a_wrong_version() {
    let json = r#"{"version":2,"target_id":103,"map_size":65536,"distances":{}}"#;
    let err = parse_distance_file(&decode(json)).unwrap_err();
    assert!(err.message().contains("version 2"));
}

#[test]
fn loader_rejects_keys_beyond_the_map_size() {
    let json = r#"{"version":1,"target_id":null,"map_size":65536,"distances":{"65536":1}}"#;
    let err = parse_distance_file(&decode(json)).unwrap_err();
    assert!(err.message().contains("map size"));
}

#[test]
fn loader_rejects_a_map_size_mismatch() {
    let json = r#"{"version":1,"target_id":null,"map_size":1024,"distances":{}}"#;
    let err = parse_distance_file(&decode(json)).unwrap_err();
    assert!(err.message().contains("map_size is 1024"));
}

#[test]
fn loader_keeps_distances_by_id() {
    let (m, t) = parse_distance_file(&file(1, 65536, &[("100", 6), ("103", 0), ("65535", 2)])).unwrap();
    assert_eq!(t, Some(7));
    assert_eq!(m.len(), 3);
    assert_eq!(m.get(&100), Some(&6));
    assert_eq!(m.get(&103), Some(&0));
    assert_eq!(m.get(&65535), Some(&2));
}

#[test]
fn loader_normalises_keys_and_the_last_entry_wins() {
    let (m, _) = parse_distance_file(&file(1, 65536, &[("7", 1), ("+007", 2), ("8", 3)])).unwrap();
    assert_eq!(m.len(), 2);
    assert_eq!(m.get(&7), Some(&2));
    assert_eq!(m.get(&8), Some(&3));
}

#[test]
fn loader_checks_the_version_before_the_map_size() {
    let err = parse_distance_file(&file(3, 12, &[("x", 1)])).unwrap_err();
    assert!(matches!(err, DistanceMapError::UnsupportedVersion(3)));
    assert_eq!(err.message(), "unsupported distance map version 3 (expected 1)");
}

#[test]
fn loader_checks_the_map_size_before_the_keys() {
    let err = parse_distance_file(&file(1, 12, &[("x", 1)])).unwrap_err();
    assert!(matches!(err, DistanceMapError::MapSizeMismatch(12)));
    assert_eq!(
        err.message(),
        "distance map map_size is 12 but the fuzzer map size is 65536"
    );
}

#[test]
fn loader_reports_the_first_bad_key() {
    let err = parse_distance_file(&file(1, 65536, &[("1", 1), ("abc", 2), ("70000", 3)])).unwrap_err();
    match &err {
        DistanceMapError::NonNumericKey(k) => assert_eq!(k, "abc"),
        other => panic!("unexpected error {other:?}"),
    }
    assert_eq!(err.message(), "non-numeric distance key 'abc'");

    let err = parse_distance_file(&file(1, 65536, &[("70000", 3), ("abc", 2)])).unwrap_err();
    assert!(matches!(err, DistanceMapError::KeyOutOfRange(70000)));
    assert_eq!(err.message(), "distance key 70000 is not below the map size 65536");
}

#[test]
fn loader_refuses_negative_and_overflowing_keys() {
    let err = parse_distance_file(&file(1, 65536, &[("-1", 3)])).unwrap_err();
    assert!(matches!(err, DistanceMapError::NonNumericKey(_)));
    let huge = "99999999999999999999999999";
    let err = parse_distance_file(&file(1, 65536, &[(huge, 3)])).unwrap_err();
    assert!(matches!(err, DistanceMapError::NonNumericKey(_)));
}

#[test]
fn loader_accepts_an_empty_map() {
    let (m, t) = parse_distance_file(&file(1, 65536, &[])).unwrap();
    assert!(m.is_empty());
    assert_eq!(t, Some(7));
}

#[test]
fn key_parsing_follows_usize_from_str() {
    for s in ["0", "7", "+7", "007", "65536", "18446744073709551615", "", "+", "-0", " 1", "1 ", "1a", "++1", "18446744073709551616", "٣"] {
        assert_eq!(parse_usize(s), s.parse::<usize>().ok(), "{s:?}");
    }
}

#[test]
fn decimal_text_matches_to_string() {
    for n in [0u64, 5, 9, 10, 99, 100, 65536, 1234567890, u64::MAX] {
        assert_eq!(decimal(n), n.to_string());
    }
}

#[test]
fn decimal_text_reads_back() {
    for n in [0usize, 1, 42, 65535, usize::MAX] {
        assert_eq!(parse_usize(&decimal(n as u64)), Some(n));
    }
}
