use extfg_sigma::{
    decode_bcd_x4, decode_field_from_cursor, encode_bcd_x2, encode_bcd_x4, encode_field_to_buf,
    Tag,
};

#[test]
fn test_decode_bcd_x4() {
    assert_eq!(decode_bcd_x4(b"\x00\x01"), Ok(1));
    assert_eq!(decode_bcd_x4(b"\x00\x02"), Ok(2));
    assert_eq!(decode_bcd_x4(b"\x00\x03"), Ok(3));
    assert_eq!(decode_bcd_x4(b"\x00\x04"), Ok(4));
    assert_eq!(decode_bcd_x4(b"\x00\x05"), Ok(5));
    assert_eq!(decode_bcd_x4(b"\x00\x06"), Ok(6));
    assert_eq!(decode_bcd_x4(b"\x00\x07"), Ok(7));
    assert_eq!(decode_bcd_x4(b"\x00\x08"), Ok(8));
    assert_eq!(decode_bcd_x4(b"\x00\x09"), Ok(9));
    assert_eq!(decode_bcd_x4(b"\x00\x10"), Ok(10));
    assert_eq!(decode_bcd_x4(b"\x00\x11"), Ok(11));
    assert_eq!(decode_bcd_x4(b"\x00\x12"), Ok(12));
    assert_eq!(decode_bcd_x4(b"\x00\x13"), Ok(13));
    assert_eq!(decode_bcd_x4(b"\x00\x14"), Ok(14));
    assert_eq!(decode_bcd_x4(b"\x00\x15"), Ok(15));
    assert_eq!(decode_bcd_x4(b"\x00\x16"), Ok(16));
    assert_eq!(decode_bcd_x4(b"\x00\x17"), Ok(17));
    assert_eq!(decode_bcd_x4(b"\x00\x18"), Ok(18));
    assert_eq!(decode_bcd_x4(b"\x00\x19"), Ok(19));
    assert_eq!(decode_bcd_x4(b"\x00\x20"), Ok(20));
    assert_eq!(decode_bcd_x4(b"\x00\x21"), Ok(21));
    assert_eq!(decode_bcd_x4(b"\x00\x22"), Ok(22));
    assert_eq!(decode_bcd_x4(b"\x00\x23"), Ok(23));
    assert_eq!(decode_bcd_x4(b"\x00\x24"), Ok(24));
    assert_eq!(decode_bcd_x4(b"\x00\x25"), Ok(25));
    assert_eq!(decode_bcd_x4(b"\x00\x26"), Ok(26));
    assert_eq!(decode_bcd_x4(b"\x00\x27"), Ok(27));
    assert_eq!(decode_bcd_x4(b"\x00\x28"), Ok(28));
    assert_eq!(decode_bcd_x4(b"\x00\x29"), Ok(29));
    assert_eq!(decode_bcd_x4(b"\x00\x30"), Ok(30));
    assert_eq!(decode_bcd_x4(b"\x00\x32"), Ok(32));
    assert_eq!(decode_bcd_x4(b"\x00\x43"), Ok(43));
    assert_eq!(decode_bcd_x4(b"\x00\x54"), Ok(54));
    assert_eq!(decode_bcd_x4(b"\x00\x65"), Ok(65));
    assert_eq!(decode_bcd_x4(b"\x00\x76"), Ok(76));
    assert_eq!(decode_bcd_x4(b"\x00\x87"), Ok(87));
    assert_eq!(decode_bcd_x4(b"\x00\x99"), Ok(99));
    assert_eq!(decode_bcd_x4(b"\x01\x05"), Ok(105));
    assert_eq!(decode_bcd_x4(b"\x01\x37"), Ok(137));
    assert_eq!(decode_bcd_x4(b"\x02\x93"), Ok(293));
    assert_eq!(decode_bcd_x4(b"\x03\x60"), Ok(360));
    assert_eq!(decode_bcd_x4(b"\x12\x34"), Ok(1234));
    assert_eq!(decode_bcd_x4(b"\x56\x78"), Ok(5678));
    assert_eq!(decode_bcd_x4(b"\x99\x99"), Ok(9999));
}

#[test]
fn test_encode_bcd_x2() {
    assert_eq!(encode_bcd_x2(0), Ok(0x0));
    assert_eq!(encode_bcd_x2(1), Ok(0x1));
    assert_eq!(encode_bcd_x2(9), Ok(0x9));
    assert_eq!(encode_bcd_x2(10), Ok(0x10));
    assert_eq!(encode_bcd_x2(19), Ok(0x19));
    assert_eq!(encode_bcd_x2(99), Ok(0x99));

    assert!(encode_bcd_x2(100).is_err());
}

#[test]
fn test_encode_bcd_x4() {
    assert_eq!(encode_bcd_x4(0), Ok([0x0, 0x0]));
    assert_eq!(encode_bcd_x4(1), Ok([0x0, 0x1]));
    assert_eq!(encode_bcd_x4(9), Ok([0x0, 0x9]));
    assert_eq!(encode_bcd_x4(10), Ok([0x0, 0x10]));
    assert_eq!(encode_bcd_x4(19), Ok([0x0, 0x19]));
    assert_eq!(encode_bcd_x4(100), Ok([0x1, 0x00]));
    assert_eq!(encode_bcd_x4(101), Ok([0x1, 0x01]));
    assert_eq!(encode_bcd_x4(119), Ok([0x1, 0x19]));
    assert_eq!(encode_bcd_x4(1000), Ok([0x10, 0x0]));
    assert_eq!(encode_bcd_x4(1019), Ok([0x10, 0x19]));
    assert_eq!(encode_bcd_x4(9999), Ok([0x99, 0x99]));

    assert!(encode_bcd_x4(10000).is_err());
}

#[test]
fn bcd_x4_round_trip_all_values() {
    for v in 0..=9999u16 {
        let b = encode_bcd_x4(v).unwrap();
        assert_eq!(decode_bcd_x4(&b), Ok(v));
    }
}

#[test]
fn encode_tag_regular_09() {
    let mut buf: Vec<u8> = Vec::new();
    Tag::Regular(9).encode_to_buf(&mut buf).unwrap();
    assert_eq!(buf.as_slice(), &b"T\x00\x09\x00"[..]);
}

#[test]
fn encode_tag_regular_19() {
    let mut buf: Vec<u8> = Vec::new();
    Tag::Regular(19).encode_to_buf(&mut buf).unwrap();
    assert_eq!(buf.as_slice(), &b"T\x00\x19\x00"[..]);
}

#[test]
fn encode_tag_iso_19() {
    let mut buf: Vec<u8> = Vec::new();
    Tag::Iso(19).encode_to_buf(&mut buf).unwrap();
    assert_eq!(buf.as_slice(), &b"I\x00\x19\x00"[..]);
}

#[test]
fn encode_tag_iso_191() {
    let mut buf: Vec<u8> = Vec::new();
    Tag::Iso(191).encode_to_buf(&mut buf).unwrap();
    assert_eq!(buf.as_slice(), &b"I\x01\x91\x00"[..]);
}

#[test]
fn encode_tag_subfield_19_2() {
    let mut buf: Vec<u8> = Vec::new();
    Tag::IsoSubfield(19, 2).encode_to_buf(&mut buf).unwrap();
    assert_eq!(buf.as_slice(), &b"S\x00\x19\x02"[..]);
}

#[test]
fn encode_tag_subfield_19_22() {
    let mut buf: Vec<u8> = Vec::new();
    Tag::IsoSubfield(19, 22).encode_to_buf(&mut buf).unwrap();
    assert_eq!(buf.as_slice(), &b"S\x00\x19\x22"[..]);
}

#[test]
fn encode_field() {
    let mut buf: Vec<u8> = Vec::new();
    encode_field_to_buf(Tag::Regular(9), "IDDQD".as_bytes(), &mut buf).unwrap();
    assert_eq!(buf.as_slice(), &b"T\x00\x09\x00\x00\x05IDDQD"[..]);
}

#[test]
fn encode_field_zero() {
    let mut buf: Vec<u8> = Vec::new();
    encode_field_to_buf(Tag::Iso(9), "".as_bytes(), &mut buf).unwrap();
    assert_eq!(buf.as_slice(), &b"I\x00\x09\x00\x00\x00"[..]);
}

#[test]
fn decode_field() {
    let mut buf = bytes::Bytes::from_static(b"T\x00\x09\x00\x00\x05IDDQD");
    let (tag, data) = decode_field_from_cursor(&mut buf).unwrap();
    assert_eq!(tag, Tag::Regular(9));
    assert_eq!(data[..], b"IDDQD"[..]);
}

#[test]
fn decode_field_zero() {
    let mut buf = bytes::Bytes::from_static(b"I\x00\x09\x00\x00\x00");
    let (tag, data) = decode_field_from_cursor(&mut buf).unwrap();
    assert_eq!(tag, Tag::Iso(9));
    assert_eq!(data[..], b""[..]);
}

#[test]
fn tag_text_round_trip() {
    let samples = vec![
        Tag::Regular(0),
        Tag::Regular(19),
        Tag::Regular(9999),
        Tag::Iso(0),
        Tag::Iso(22),
        Tag::Iso(999),
        Tag::IsoSubfield(19, 2),
        Tag::IsoSubfield(9999, 99),
    ];
    for t in samples {
        assert_eq!(Tag::from_str(&t.to_string()), Ok(t));
    }
}

#[test]
fn tag_textual_forms() {
    assert_eq!(Tag::Regular(19).to_string(), "T0019");
    assert_eq!(Tag::Iso(22).to_string(), "i022");
    assert_eq!(Tag::IsoSubfield(19, 2).to_string(), "s001902");
    assert_eq!(Tag::from_str("T0019"), Ok(Tag::Regular(19)));
    assert_eq!(Tag::from_str("t0019"), Ok(Tag::Regular(19)));
    assert_eq!(Tag::from_str("i022"), Ok(Tag::Iso(22)));
    assert_eq!(Tag::from_str("I022"), Ok(Tag::Iso(22)));
    assert_eq!(Tag::from_str("s001902"), Ok(Tag::IsoSubfield(19, 2)));
    assert!(Tag::from_str("X0019").is_err());
    assert!(Tag::from_str("T019").is_err());
    assert!(Tag::from_str("T00x9").is_err());
    assert!(Tag::from_str("").is_err());
}
