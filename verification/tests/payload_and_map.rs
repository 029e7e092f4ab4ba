use extfg_sigma::{IsoFieldData, JsonVal, OrderedMap, SigmaRequest};

#[test]
fn ordered_map_insert_and_get() {
    let mut m: OrderedMap<String> = OrderedMap::new();
    assert!(m.is_empty());
    m.insert(5, "five".to_string());
    m.insert(1, "one".to_string());
    m.insert(3, "three".to_string());
    assert_eq!(m.len(), 3);
    assert_eq!(m.get(1).unwrap().as_str(), "one");
    assert_eq!(m.get(3).unwrap().as_str(), "three");
    assert_eq!(m.get(5).unwrap().as_str(), "five");
    assert!(m.get(2).is_none());
    assert_eq!(m.entry_at(0).0, 1);
    assert_eq!(m.entry_at(1).0, 3);
    assert_eq!(m.entry_at(2).0, 5);
}

#[test]
fn ordered_map_insert_replaces() {
    let mut m: OrderedMap<String> = OrderedMap::new();
    m.insert(7, "a".to_string());
    m.insert(7, "b".to_string());
    assert_eq!(m.len(), 1);
    assert_eq!(m.get(7).unwrap().as_str(), "b");
}

#[test]
fn payload_text_and_raw() {
    let t = IsoFieldData::from("hello".to_string());
    assert_eq!(t.as_bytes(), b"hello");
    assert_eq!(t.to_cow_str_lossy(), "hello");
    assert_eq!(t.to_string_lossy(), "hello");

    let r = IsoFieldData::from(vec![0xffu8, 0x41]);
    assert_eq!(r.as_bytes(), b"\xff\x41");
    assert_eq!(r.to_cow_str_lossy(), "\u{fffd}A");
    assert_eq!(r.to_string_lossy(), "\u{fffd}A");
}

#[test]
fn payload_from_bytes_promotes_text() {
    let p = IsoFieldData::from_bytes(bytes::Bytes::from_static(b"plain"));
    assert_eq!(p, IsoFieldData::Text("plain".to_string()));

    let q = IsoFieldData::from_bytes(bytes::Bytes::from_static(b"\xff\xfe"));
    assert_eq!(q, IsoFieldData::Raw(vec![0xff, 0xfe]));
}

#[test]
fn from_json_entries_uses_fallback_serno() {
    let entries = vec![
        ("SAF".to_string(), JsonVal::Str("Y".to_string())),
        ("SRC".to_string(), JsonVal::Str("M".to_string())),
        ("MTI".to_string(), JsonVal::Str("0200".to_string())),
        ("T0001".to_string(), JsonVal::UInt(77)),
    ];
    let r = SigmaRequest::from_json_entries(entries, 42).unwrap();
    assert_eq!(r.auth_serno, 42);
    assert_eq!(r.tags.get(1).unwrap().as_str(), "77");
}

#[test]
fn from_json_entries_prefers_given_serno() {
    let entries = vec![
        ("SAF".to_string(), JsonVal::Str("N".to_string())),
        ("SRC".to_string(), JsonVal::Str("X".to_string())),
        ("MTI".to_string(), JsonVal::Str("0100".to_string())),
        ("Serno".to_string(), JsonVal::UInt(123)),
    ];
    let r = SigmaRequest::from_json_entries(entries, 42).unwrap();
    assert_eq!(r.auth_serno, 123);
}
