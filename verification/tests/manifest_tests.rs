use wid::{DataType, Manifest, ManifestError, MetaValue, SynapseFile, MANIFEST_VERSION, MAX_MANIFEST_SIZE};

#[test]
fn test_roundtrip() {
    let mut sf = SynapseFile::new(Manifest::new("test-id"), b"Hello!".to_vec());
    let bytes = sf.to_bytes().unwrap();
    let loaded = SynapseFile::from_bytes(&bytes).unwrap();
    assert_eq!(loaded.manifest.id, "test-id");
    assert!(loaded.verify());
}

#[test]
fn test_manifest_json_roundtrip() {
    let mut m = Manifest::new("abc");
    m.node = "n1".to_string();
    m.metadata.push(("k".to_string(), MetaValue::Str("v".to_string())));
    let json = m.to_json().unwrap();
    let parsed = Manifest::from_json(&json).unwrap();
    assert_eq!(parsed.id, "abc");
    assert_eq!(parsed.node, "n1");
    assert_eq!(parsed.version, MANIFEST_VERSION);
    assert!(parsed
        .metadata
        .iter()
        .any(|e| e.0 == "k" && e.1 == MetaValue::Str("v".to_string())));
}

#[test]
fn test_from_bytes_rejects_too_small_and_bad_magic() {
    assert!(matches!(
        SynapseFile::from_bytes(b"123"),
        Err(ManifestError::DataTooSmall)
    ));

    let bad = vec![b'B', b'A', b'D', b'!', 0, 1, 0, 0, 0, 0];
    assert!(matches!(
        SynapseFile::from_bytes(&bad),
        Err(ManifestError::InvalidMagic)
    ));
}

#[test]
fn test_from_bytes_rejects_manifest_size_too_large() {
    let mut buf = Vec::new();
    buf.extend_from_slice(b"SYNM");
    buf.extend_from_slice(&MANIFEST_VERSION.to_be_bytes());
    buf.extend_from_slice(&((MAX_MANIFEST_SIZE as u32) + 1).to_be_bytes());
    assert!(matches!(
        SynapseFile::from_bytes(&buf),
        Err(ManifestError::ManifestTooLarge(_))
    ));
}

#[test]
fn test_from_bytes_rejects_truncated_manifest_body() {
    let mut buf = Vec::new();
    buf.extend_from_slice(b"SYNM");
    buf.extend_from_slice(&MANIFEST_VERSION.to_be_bytes());
    buf.extend_from_slice(&10u32.to_be_bytes()); // claim 10-byte manifest
    buf.extend_from_slice(b"{}"); // but only 2 bytes available
    assert!(matches!(
        SynapseFile::from_bytes(&buf),
        Err(ManifestError::DataTooSmall)
    ));
}

#[test]
fn test_to_bytes_rejects_oversized_manifest() {
    let mut m = Manifest::new("big");
    m.metadata
        .push((
            "huge".to_string(),
            MetaValue::Str("x".repeat(MAX_MANIFEST_SIZE + 1024)),
        ));
    let mut sf = SynapseFile::new(m, b"payload".to_vec());
    assert!(matches!(
        sf.to_bytes(),
        Err(ManifestError::ManifestTooLarge(_))
    ));
}

#[test]
fn test_verify_false_on_payload_tamper() {
    let mut sf = SynapseFile::new(Manifest::new("x"), b"orig".to_vec());
    let bytes = sf.to_bytes().unwrap();
    let mut loaded = SynapseFile::from_bytes(&bytes).unwrap();
    loaded.payload = b"tampered".to_vec();
    assert!(!loaded.verify());
}

#[test]
fn test_roundtrip_preserves_node_and_payload() {
    let mut m = Manifest::new("rt-id");
    m.node = "node01".to_string();
    m.data_type = "text/plain".to_string();
    m.metadata
        .push(("lang".to_string(), MetaValue::Str("en".to_string())));
    let mut sf = SynapseFile::new(m, vec![0u8, 1, 2, 255, 254]);
    let bytes = sf.to_bytes().unwrap();
    let loaded = SynapseFile::from_bytes(&bytes).unwrap();
    assert_eq!(loaded.manifest.id, "rt-id");
    assert_eq!(loaded.manifest.node, "node01");
    assert_eq!(loaded.manifest.data_type, "text/plain");
    assert_eq!(loaded.manifest.data_size, 5);
    assert_eq!(loaded.payload, vec![0u8, 1, 2, 255, 254]);
    assert!(loaded.verify());
}

#[test]
fn test_canonical_json_text() {
    let m = Manifest::new("abc");
    let json = m.to_json().unwrap();
    assert_eq!(
        json,
        "{\"id\":\"abc\",\"version\":1,\"node\":\"\",\"data_type\":\"unknown\",\
         \"data_size\":0,\"data_hash\":\"\"}"
    );
}

#[test]
fn test_json_escaping_round_trip() {
    let mut m = Manifest::new("a\"b\\c");
    m.node = "plain".to_string();
    let json = m.to_json().unwrap();
    let parsed = Manifest::from_json(&json).unwrap();
    assert_eq!(parsed.id, "a\"b\\c");
    assert_eq!(parsed.node, "plain");
}

#[test]
fn test_from_json_rejects_garbage() {
    assert!(Manifest::from_json("").is_err());
    assert!(Manifest::from_json("{}").is_err());
    assert!(Manifest::from_json("{\"id\":\"x\"").is_err());
}

#[test]
fn test_known_empty_payload_hash() {
    let sf = SynapseFile::from_raw("empty", Vec::new());
    assert_eq!(
        sf.manifest.data_hash,
        "e3b0c44298fc1c149afbf4c8996fb92427ae41e4649b934ca495991b7852b855"
    );
    assert_eq!(sf.manifest.data_size, 0);
    assert_eq!(sf.manifest.id, "empty");
    assert!(sf.verify());
}

#[test]
fn test_magic_prefix_detection() {
    assert!(SynapseFile::has_magic_prefix(b"SYNMrest"));
    assert!(!SynapseFile::has_magic_prefix(b"SYN"));
    assert!(!SynapseFile::has_magic_prefix(b"NOPEnope"));
}

#[test]
fn test_data_type_names() {
    assert_eq!(DataType::Unknown.as_str(), "unknown");
    assert_eq!(DataType::Text.as_str(), "text/plain");
    assert_eq!(DataType::Json.as_str(), "application/json");
    assert_eq!(DataType::Binary.as_str(), "application/octet-stream");
    assert_eq!(DataType::default(), DataType::Unknown);
}

#[test]
fn test_from_json_accepts_any_key_order() {
    let canonical = Manifest::new("x").to_json().unwrap();
    assert!(Manifest::from_json(&canonical).is_ok());
    let reordered = "{\"version\":1,\"id\":\"x\",\"node\":\"\",\"data_type\":\"unknown\",\
                     \"data_size\":0,\"data_hash\":\"\"}";
    let m = Manifest::from_json(reordered).unwrap();
    assert_eq!(m.id, "x");
    assert_eq!(m.data_type, "unknown");
}

#[test]
fn test_from_json_minimal_object_defaults() {
    // the one required key; every optional key falls back to its default
    let m = Manifest::from_json("{\"id\": \"a\"}").unwrap();
    assert_eq!(m.id, "a");
    assert_eq!(m.version, 1);
    assert_eq!(m.node, "");
    assert_eq!(m.data_type, "");
    assert_eq!(m.data_size, 0);
    assert_eq!(m.data_hash, "");
    assert!(m.metadata.is_empty());
    // the id key is required
    assert!(Manifest::from_json("{}").is_err());
    assert!(Manifest::from_json("{\"node\": \"n\"}").is_err());
}

#[test]
fn test_from_json_accepts_whitespace_and_pretty_text() {
    let pretty = "{\n  \"id\": \"spaced\",\n  \"version\": 3,\n  \"node\": \"n9\",\n  \
\"metadata\": {\n    \"k\": \"v\"\n  }\n}";
    let m = Manifest::from_json(pretty).unwrap();
    assert_eq!(m.id, "spaced");
    assert_eq!(m.version, 3);
    assert_eq!(m.node, "n9");
    assert_eq!(
        m.metadata,
        vec![("k".to_string(), MetaValue::Str("v".to_string()))]
    );
}

#[test]
fn test_from_json_standard_escapes() {
    let m = Manifest::from_json("{\"id\":\"a\\n\\t\\u0041\\\"b\"}").unwrap();
    assert_eq!(m.id, "a\n\tA\"b");
}

#[test]
fn test_from_json_rejects_bad_members() {
    // a repeated key
    assert!(Manifest::from_json("{\"id\":\"a\",\"id\":\"b\"}").is_err());
    // a value of the wrong type
    assert!(Manifest::from_json("{\"id\":7}").is_err());
    assert!(Manifest::from_json("{\"id\":\"a\",\"version\":\"1\"}").is_err());
    // a fractional version
    assert!(Manifest::from_json("{\"id\":\"a\",\"version\":1.5}").is_err());
}

#[test]
fn test_from_json_ignores_unknown_keys() {
    let m = Manifest::from_json(
        "{\"id\":\"a\",\"extra\":[1,2,{\"x\":null}],\"flag\":true,\"score\":-1.5e3}",
    )
    .unwrap();
    assert_eq!(m.id, "a");
    assert_eq!(m.version, 1);
}

#[test]
fn test_metadata_entries_round_trip() {
    let mut m = Manifest::new("meta");
    m.metadata
        .push(("a".to_string(), MetaValue::Str("1".to_string())));
    m.metadata
        .push(("b".to_string(), MetaValue::Str("2".to_string())));
    m.metadata.push((
        "weird \"key\"".to_string(),
        MetaValue::Str("va\\lue".to_string()),
    ));
    let json = m.to_json().unwrap();
    let p = Manifest::from_json(&json).unwrap();
    assert_eq!(p.metadata.len(), 3);
    assert_eq!(p.metadata[0].0, "a");
    assert_eq!(p.metadata[1].1, MetaValue::Str("2".to_string()));
    assert_eq!(p.metadata[2].0, "weird \"key\"");
    assert_eq!(p.metadata[2].1, MetaValue::Str("va\\lue".to_string()));
}

#[test]
fn test_from_bytes_accepts_foreign_manifest_text() {
    // a container framed by another writer: minimal JSON with whitespace
    let json = b"{ \"id\": \"foreign\" }";
    let mut buf = Vec::new();
    buf.extend_from_slice(b"SYNM");
    buf.extend_from_slice(&MANIFEST_VERSION.to_be_bytes());
    buf.extend_from_slice(&(json.len() as u32).to_be_bytes());
    buf.extend_from_slice(json);
    buf.extend_from_slice(b"payload");
    let f = SynapseFile::from_bytes(&buf).unwrap();
    assert_eq!(f.manifest.id, "foreign");
    assert_eq!(f.manifest.version, 1);
    assert_eq!(f.payload, b"payload");
}


#[test]
fn test_metadata_accepts_any_json_value() {
    // numbers, booleans, arrays and nested objects are carried as their text
    let m = Manifest::from_json(
        "{\"id\":\"a\",\"metadata\":{\"n\":5,\"ok\":true,\"xs\":[1, 2],\"o\":{\"y\":null}}}",
    )
    .unwrap();
    assert_eq!(m.metadata.len(), 4);
    assert_eq!(m.metadata[0], ("n".to_string(), MetaValue::Raw("5".to_string())));
    assert_eq!(m.metadata[1], ("ok".to_string(), MetaValue::Raw("true".to_string())));
    assert_eq!(m.metadata[2], ("xs".to_string(), MetaValue::Raw("[1, 2]".to_string())));
    assert_eq!(
        m.metadata[3],
        ("o".to_string(), MetaValue::Raw("{\"y\":null}".to_string()))
    );
    // re-encoding writes the spans back verbatim, so the values round-trip
    let json = m.to_json().unwrap();
    let p = Manifest::from_json(&json).unwrap();
    assert_eq!(p.metadata, m.metadata);
}

#[test]
fn test_container_round_trips_raw_metadata() {
    let mut m = Manifest::new("raw-meta");
    m.metadata
        .push(("count".to_string(), MetaValue::Raw("42".to_string())));
    m.metadata
        .push(("tags".to_string(), MetaValue::Raw("[\"a\",\"b\"]".to_string())));
    let mut sf = SynapseFile::new(m, b"pay".to_vec());
    let bytes = sf.to_bytes().unwrap();
    let loaded = SynapseFile::from_bytes(&bytes).unwrap();
    assert_eq!(loaded.manifest.id, "raw-meta");
    assert_eq!(loaded.manifest.metadata, sf.manifest.metadata);
    assert_eq!(loaded.payload, b"pay");
    assert!(loaded.verify());
}

#[test]
fn test_control_characters_escape_and_round_trip() {
    // the canonical encoder escapes control characters as \u00XX
    let m = Manifest::new("a\nb\tc\u{1}");
    let json = m.to_json().unwrap();
    assert!(json.starts_with("{\"id\":\"a\\u000ab\\u0009c\\u0001\""));
    let p = Manifest::from_json(&json).unwrap();
    assert_eq!(p.id, "a\nb\tc\u{1}");
    // and the container carries them through
    let mut sf = SynapseFile::new(Manifest::new("x\r\ny"), b"p".to_vec());
    let bytes = sf.to_bytes().unwrap();
    let loaded = SynapseFile::from_bytes(&bytes).unwrap();
    assert_eq!(loaded.manifest.id, "x\r\ny");
    assert!(loaded.verify());
}
