use extfg_sigma::SigmaRequest;

#[test]
fn ok() {
    let payload = r#"{
        "SAF": "Y",
        "SRC": "M",
        "MTI": "0200",
        "Serno": 6007040979,
        "T0000": 2371492071643,
        "T0001": "C",
        "T0002": 643,
        "T0003": "000100000000",
        "T0004": 978,
        "T0005": "000300000000",
        "T0006": "OPS6",
        "T0007": 19,
        "T0008": 643,
        "T0009": 3102,
        "T0010": 3104,
        "T0011": 2,
        "T0014": "IDDQD Bank",
        "T0016": 74707182,
        "T0018": "Y",
        "T0022": "000000000010",
        "i000": "0100",
        "i002": "555544******1111",
        "i003": "500000",
        "i004": "000100000000",
        "i006": "000100000000",
        "i007": "0629151748",
        "i011": "100250",
        "i012": "181748",
        "i013": "0629",
        "i018": "0000",
        "i022": "0000",
        "i025": "02",
        "i032": "010455",
        "i037": "002595100250",
        "i041": 990,
        "i042": "DCZ1",
        "i043": "IDDQD Bank.                         GE",
        "i048": "USRDT|2595100250",
        "i049": 643,
        "i051": 643,
        "i060": 3,
        "i101": 91926242,
        "i102": 2371492071643
    }"#;

    let r: SigmaRequest =
        SigmaRequest::from_json_value(serde_json::from_str(payload).unwrap()).unwrap();
    assert_eq!(r.saf(), "Y");
    assert_eq!(r.source(), "M");
    assert_eq!(r.mti(), "0200");
    assert_eq!(r.auth_serno, 6007040979);
    assert_eq!(r.tags.get(0).unwrap().as_str(), "2371492071643");
    assert_eq!(r.tags.get(1).unwrap().as_str(), "C");
    assert_eq!(r.tags.get(2).unwrap().as_str(), "643");
    assert_eq!(r.tags.get(3).unwrap().as_str(), "000100000000");
    assert_eq!(r.tags.get(4).unwrap().as_str(), "978");
    assert_eq!(r.tags.get(5).unwrap().as_str(), "000300000000");
    assert_eq!(r.tags.get(6).unwrap().as_str(), "OPS6");
    assert_eq!(r.tags.get(7).unwrap().as_str(), "19");
    assert_eq!(r.tags.get(8).unwrap().as_str(), "643");
    assert_eq!(r.tags.get(9).unwrap().as_str(), "3102");
    assert_eq!(r.tags.get(10).unwrap().as_str(), "3104");
    assert_eq!(r.tags.get(11).unwrap().as_str(), "2");

    if r.tags.get(12).is_some() {
        unreachable!();
    }

    if r.tags.get(13).is_some() {
        unreachable!();
    }

    assert_eq!(r.tags.get(14).unwrap().as_str(), "IDDQD Bank");

    if r.tags.get(15).is_some() {
        unreachable!();
    }

    assert_eq!(r.tags.get(16).unwrap().as_str(), "74707182");
    if r.tags.get(17).is_some() {
        unreachable!();
    }
    assert_eq!(r.tags.get(18).unwrap().as_str(), "Y");
    assert_eq!(r.tags.get(22).unwrap().as_str(), "000000000010");

    assert_eq!(r.iso_fields.get(0).unwrap().as_bytes(), b"0100");

    if r.iso_fields.get(1).is_some() {
        unreachable!();
    }

    assert_eq!(r.iso_fields.get(2).unwrap().as_bytes(), b"555544******1111");
    assert_eq!(r.iso_fields.get(3).unwrap().as_bytes(), b"500000");
    assert_eq!(r.iso_fields.get(4).unwrap().as_bytes(), b"000100000000");
    assert_eq!(r.iso_fields.get(6).unwrap().as_bytes(), b"000100000000");
    assert_eq!(r.iso_fields.get(7).unwrap().as_bytes(), b"0629151748");
    assert_eq!(r.iso_fields.get(11).unwrap().as_bytes(), b"100250");
    assert_eq!(r.iso_fields.get(12).unwrap().as_bytes(), b"181748");
    assert_eq!(r.iso_fields.get(13).unwrap().as_bytes(), b"0629");
    assert_eq!(r.iso_fields.get(18).unwrap().as_bytes(), b"0000");
    assert_eq!(r.iso_fields.get(22).unwrap().as_bytes(), b"0000");
    assert_eq!(r.iso_fields.get(25).unwrap().as_bytes(), b"02");
    assert_eq!(r.iso_fields.get(32).unwrap().as_bytes(), b"010455");
    assert_eq!(r.iso_fields.get(37).unwrap().as_bytes(), b"002595100250");
    assert_eq!(r.iso_fields.get(41).unwrap().as_bytes(), b"990");
    assert_eq!(r.iso_fields.get(42).unwrap().as_bytes(), b"DCZ1");
    assert_eq!(
        r.iso_fields.get(43).unwrap().as_bytes(),
        b"IDDQD Bank.                         GE"
    );
    assert_eq!(r.iso_fields.get(48).unwrap().as_bytes(), b"USRDT|2595100250");
    assert_eq!(r.iso_fields.get(49).unwrap().as_bytes(), b"643");
    assert_eq!(r.iso_fields.get(51).unwrap().as_bytes(), b"643");
    assert_eq!(r.iso_fields.get(60).unwrap().as_bytes(), b"3");
    assert_eq!(r.iso_fields.get(101).unwrap().as_bytes(), b"91926242");
    assert_eq!(r.iso_fields.get(102).unwrap().as_bytes(), b"2371492071643");
}

#[test]
fn serno_as_string() {
    let payload = r#"{
        "SAF": "Y",
        "SRC": "M",
        "MTI": "0200",
        "Serno": "0600704097",
        "T0000": 2371492071643,
        "T0001": "C",
        "T0002": 643,
        "T0003": "000100000000",
        "T0004": 978,
        "T0005": "000300000000",
        "T0006": "OPS6",
        "T0007": 19,
        "T0008": 643,
        "T0009": 3102,
        "T0010": 3104,
        "T0011": 2,
        "T0014": "IDDQD Bank",
        "T0016": 74707182,
        "T0018": "Y",
        "T0022": "000000000010",
        "i000": "0100",
        "i002": "555544******1111",
        "i003": "500000",
        "i004": "000100000000",
        "i006": "000100000000",
        "i007": "0629151748",
        "i011": "100250",
        "i012": "181748",
        "i013": "0629",
        "i018": "0000",
        "i022": "0000",
        "i025": "02",
        "i032": "010455",
        "i037": "002595100250",
        "i041": 990,
        "i042": "DCZ1",
        "i043": "IDDQD Bank.                         GE",
        "i048": "USRDT|2595100250",
        "i049": 643,
        "i051": 643,
        "i060": 3,
        "i101": 91926242,
        "i102": 2371492071643
    }"#;

    let r: SigmaRequest =
        SigmaRequest::from_json_value(serde_json::from_str(payload).unwrap()).unwrap();
    assert_eq!(r.saf(), "Y");
    assert_eq!(r.source(), "M");
    assert_eq!(r.mti(), "0200");
    assert_eq!(r.auth_serno, 600704097);
    assert_eq!(r.tags.get(0).unwrap().as_str(), "2371492071643");
    assert_eq!(r.tags.get(1).unwrap().as_str(), "C");
    assert_eq!(r.tags.get(2).unwrap().as_str(), "643");
    assert_eq!(r.tags.get(3).unwrap().as_str(), "000100000000");
    assert_eq!(r.tags.get(4).unwrap().as_str(), "978");
    assert_eq!(r.tags.get(5).unwrap().as_str(), "000300000000");
    assert_eq!(r.tags.get(6).unwrap().as_str(), "OPS6");
    assert_eq!(r.tags.get(7).unwrap().as_str(), "19");
    assert_eq!(r.tags.get(8).unwrap().as_str(), "643");
    assert_eq!(r.tags.get(9).unwrap().as_str(), "3102");
    assert_eq!(r.tags.get(10).unwrap().as_str(), "3104");
    assert_eq!(r.tags.get(11).unwrap().as_str(), "2");

    if r.tags.get(12).is_some() {
        unreachable!();
    }

    if r.tags.get(13).is_some() {
        unreachable!();
    }

    assert_eq!(r.tags.get(14).unwrap().as_str(), "IDDQD Bank");

    if r.tags.get(15).is_some() {
        unreachable!();
    }

    assert_eq!(r.tags.get(16).unwrap().as_str(), "74707182");
    if r.tags.get(17).is_some() {
        unreachable!();
    }
    assert_eq!(r.tags.get(18).unwrap().as_str(), "Y");
    assert_eq!(r.tags.get(22).unwrap().as_str(), "000000000010");

    assert_eq!(r.iso_fields.get(0).unwrap().as_bytes(), b"0100");

    if r.iso_fields.get(1).is_some() {
        unreachable!();
    }

    assert_eq!(r.iso_fields.get(2).unwrap().as_bytes(), b"555544******1111");
    assert_eq!(r.iso_fields.get(3).unwrap().as_bytes(), b"500000");
    assert_eq!(r.iso_fields.get(4).unwrap().as_bytes(), b"000100000000");
    assert_eq!(r.iso_fields.get(6).unwrap().as_bytes(), b"000100000000");
    assert_eq!(r.iso_fields.get(7).unwrap().as_bytes(), b"0629151748");
    assert_eq!(r.iso_fields.get(11).unwrap().as_bytes(), b"100250");
    assert_eq!(r.iso_fields.get(12).unwrap().as_bytes(), b"181748");
    assert_eq!(r.iso_fields.get(13).unwrap().as_bytes(), b"0629");
    assert_eq!(r.iso_fields.get(18).unwrap().as_bytes(), b"0000");
    assert_eq!(r.iso_fields.get(22).unwrap().as_bytes(), b"0000");
    assert_eq!(r.iso_fields.get(25).unwrap().as_bytes(), b"02");
    assert_eq!(r.iso_fields.get(32).unwrap().as_bytes(), b"010455");
    assert_eq!(r.iso_fields.get(37).unwrap().as_bytes(), b"002595100250");
    assert_eq!(r.iso_fields.get(41).unwrap().as_bytes(), b"990");
    assert_eq!(r.iso_fields.get(42).unwrap().as_bytes(), b"DCZ1");
    assert_eq!(
        r.iso_fields.get(43).unwrap().as_bytes(),
        b"IDDQD Bank.                         GE"
    );
    assert_eq!(r.iso_fields.get(48).unwrap().as_bytes(), b"USRDT|2595100250");
    assert_eq!(r.iso_fields.get(49).unwrap().as_bytes(), b"643");
    assert_eq!(r.iso_fields.get(51).unwrap().as_bytes(), b"643");
    assert_eq!(r.iso_fields.get(60).unwrap().as_bytes(), b"3");
    assert_eq!(r.iso_fields.get(101).unwrap().as_bytes(), b"91926242");
    assert_eq!(r.iso_fields.get(102).unwrap().as_bytes(), b"2371492071643");
}

#[test]
fn missing_saf() {
    let payload = r#"{
        "SRC": "M",
        "MTI": "0200"
    }"#;

    if SigmaRequest::from_json_value(serde_json::from_str(payload).unwrap()).is_ok() {
        unreachable!("Should not return Ok if mandatory field is missing");
    }
}

#[test]
fn invalid_saf() {
    let payload = r#"{
        "SAF": 1234,
        "SRC": "M",
        "MTI": "0200"
    }"#;

    if SigmaRequest::from_json_value(serde_json::from_str(payload).unwrap()).is_ok() {
        unreachable!("Should not return Ok if the filed has invalid format");
    }
}

#[test]
fn missing_source() {
    let payload = r#"{
        "SAF": "N",
        "MTI": "0200"
    }"#;

    if SigmaRequest::from_json_value(serde_json::from_str(payload).unwrap()).is_ok() {
        unreachable!("Should not return Ok if mandatory field is missing");
    }
}

#[test]
fn invalid_source() {
    let payload = r#"{
        "SAF": "N",
        "SRC": 929292,
        "MTI": "0200"
    }"#;

    if SigmaRequest::from_json_value(serde_json::from_str(payload).unwrap()).is_ok() {
        unreachable!("Should not return Ok if the filed has invalid format");
    }
}

#[test]
fn missing_mti() {
    let payload = r#"{
        "SAF": "N",
        "SRC": "O"
    }"#;

    if SigmaRequest::from_json_value(serde_json::from_str(payload).unwrap()).is_ok() {
        unreachable!("Should not return Ok if mandatory field is missing");
    }
}

#[test]
fn invalid_mti() {
    let payload = r#"{
        "SAF": "N",
        "SRC": "O",
        "MTI": 1200
    }"#;

    if SigmaRequest::from_json_value(serde_json::from_str(payload).unwrap()).is_ok() {
        unreachable!("Should not return Ok if the filed has invalid format");
    }
}

#[test]
fn generating_auth_serno() {
    let payload = r#"{
            "SAF": "Y",
            "SRC": "M",
            "MTI": "0200",
            "T0000": "02371492071643"
        }"#;

    let r: SigmaRequest =
        SigmaRequest::from_json_value(serde_json::from_str(payload).unwrap()).unwrap();
    assert!(
        r.auth_serno > 0,
        "Should generate authorization serno if the field is missing"
    );
}

#[test]
fn encode_generated_auth_serno() {
    let payload = r#"{
            "SAF": "Y",
            "SRC": "M",
            "MTI": "0201",
            "Serno": 7877706965687192023
        }"#;

    let r: SigmaRequest =
        SigmaRequest::from_json_value(serde_json::from_str(payload).unwrap()).unwrap();
    let serialized = r.encode().unwrap();
    assert_eq!(
        serialized,
        b"00016YM02017877706965"[..],
        "Original auth serno should be trimmed to 10 bytes"
    );
}

#[test]
fn encode_sigma_request() {
    let payload = r#"{
            "SAF": "Y",
            "SRC": "M",
            "MTI": "0200",
            "Serno": 6007040979,
            "T0000": 2371492071643,
            "T0001": "C",
            "T0002": 643,
            "T0003": "000100000000",
            "T0004": 978,
            "T0005": "000300000000",
            "T0006": "OPS6",
            "T0007": 19,
            "T0008": 643,
            "T0009": 3102,
            "T0010": 3104,
            "T0011": 2,
            "T0014": "IDDQD Bank",
            "T0016": 74707182,
            "T0018": "Y",
            "T0022": "000000000010",
            "i000": "0100",
            "i002": "555544******1111",
            "i003": "500000",
            "i004": "000100000000",
            "i006": "000100000000",
            "i007": "0629151748",
            "i011": "100250",
            "i012": "181748",
            "i013": "0629",
            "i018": "0000",
            "i022": "0000",
            "i025": "02",
            "i032": "010455",
            "i037": "002595100250",
            "i041": 990,
            "i042": "DCZ1",
            "i043": "IDDQD Bank.                         GE",
            "i048": "USRDT|2595100250",
            "i049": 643,
            "i051": 643,
            "i060": 3,
            "i101": 91926242,
            "i102": 2371492071643
        }"#;

    let r: SigmaRequest =
        SigmaRequest::from_json_value(serde_json::from_str(payload).unwrap()).unwrap();
    let serialized = r.encode().unwrap();
    assert_eq!(
        serialized,
        b"00536YM02006007040979T\x00\x00\x00\x00\x132371492071643T\x00\x01\x00\x00\x01CT\x00\x02\x00\x00\x03643T\x00\x03\x00\x00\x12000100000000T\x00\x04\x00\x00\x03978T\x00\x05\x00\x00\x12000300000000T\x00\x06\x00\x00\x04OPS6T\x00\x07\x00\x00\x0219T\x00\x08\x00\x00\x03643T\x00\t\x00\x00\x043102T\x00\x10\x00\x00\x043104T\x00\x11\x00\x00\x012T\x00\x14\x00\x00\x10IDDQD BankT\x00\x16\x00\x00\x0874707182T\x00\x18\x00\x00\x01YT\x00\x22\x00\x00\x12000000000010I\x00\x00\x00\x00\x040100I\x00\x02\x00\x00\x16555544******1111I\x00\x03\x00\x00\x06500000I\x00\x04\x00\x00\x12000100000000I\x00\x06\x00\x00\x12000100000000I\x00\x07\x00\x00\x100629151748I\x00\x11\x00\x00\x06100250I\x00\x12\x00\x00\x06181748I\x00\x13\x00\x00\x040629I\x00\x18\x00\x00\x040000I\x00\"\x00\x00\x040000I\x00%\x00\x00\x0202I\x002\x00\x00\x06010455I\x007\x00\x00\x12002595100250I\x00A\x00\x00\x03990I\x00B\x00\x00\x04DCZ1I\x00C\x00\x008IDDQD Bank.                         GEI\x00H\x00\x00\x16USRDT|2595100250I\x00I\x00\x00\x03643I\x00Q\x00\x00\x03643I\x00`\x00\x00\x013I\x01\x01\x00\x00\x0891926242I\x01\x02\x00\x00\x132371492071643"[..]
    );
}

#[test]
fn decode_sigma_request() {
    let src = bytes::Bytes::from_static(b"00536YM02006007040979T\x00\x00\x00\x00\x132371492071643T\x00\x01\x00\x00\x01CT\x00\x02\x00\x00\x03643T\x00\x03\x00\x00\x12000100000000T\x00\x04\x00\x00\x03978T\x00\x05\x00\x00\x12000300000000T\x00\x06\x00\x00\x04OPS6T\x00\x07\x00\x00\x0219T\x00\x08\x00\x00\x03643T\x00\t\x00\x00\x043102T\x00\x10\x00\x00\x043104T\x00\x11\x00\x00\x012T\x00\x14\x00\x00\x10IDDQD BankT\x00\x16\x00\x00\x0874707182T\x00\x18\x00\x00\x01YT\x00\x22\x00\x00\x12000000000010I\x00\x00\x00\x00\x040100I\x00\x02\x00\x00\x16555544******1111I\x00\x03\x00\x00\x06500000I\x00\x04\x00\x00\x12000100000000I\x00\x06\x00\x00\x12000100000000I\x00\x07\x00\x00\x100629151748I\x00\x11\x00\x00\x06100250I\x00\x12\x00\x00\x06181748I\x00\x13\x00\x00\x040629I\x00\x18\x00\x00\x040000I\x00\"\x00\x00\x040000I\x00%\x00\x00\x0202I\x002\x00\x00\x06010455I\x007\x00\x00\x12002595100250I\x00A\x00\x00\x03990I\x00B\x00\x00\x04DCZ1I\x00C\x00\x008IDDQD Bank.                         GEI\x00H\x00\x00\x16USRDT|2595100250I\x00I\x00\x00\x03643I\x00Q\x00\x00\x03643I\x00`\x00\x00\x013I\x01\x01\x00\x00\x0891926242I\x01\x02\x00\x00\x132371492071643");
    let json = r#"{
            "SAF": "Y",
            "SRC": "M",
            "MTI": "0200",
            "Serno": 6007040979,
            "T0000": 2371492071643,
            "T0001": "C",
            "T0002": 643,
            "T0003": "000100000000",
            "T0004": 978,
            "T0005": "000300000000",
            "T0006": "OPS6",
            "T0007": 19,
            "T0008": 643,
            "T0009": 3102,
            "T0010": 3104,
            "T0011": 2,
            "T0014": "IDDQD Bank",
            "T0016": 74707182,
            "T0018": "Y",
            "T0022": "000000000010",
            "i000": "0100",
            "i002": "555544******1111",
            "i003": "500000",
            "i004": "000100000000",
            "i006": "000100000000",
            "i007": "0629151748",
            "i011": "100250",
            "i012": "181748",
            "i013": "0629",
            "i018": "0000",
            "i022": "0000",
            "i025": "02",
            "i032": "010455",
            "i037": "002595100250",
            "i041": 990,
            "i042": "DCZ1",
            "i043": "IDDQD Bank.                         GE",
            "i048": "USRDT|2595100250",
            "i049": 643,
            "i051": 643,
            "i060": 3,
            "i101": 91926242,
            "i102": 2371492071643
        }"#;

    let target: SigmaRequest =
        SigmaRequest::from_json_value(serde_json::from_str(json).unwrap()).unwrap();

    let req = SigmaRequest::decode(src).unwrap();

    assert_eq!(req, target);
}

#[test]
fn request_wire_round_trip() {
    let mut req = SigmaRequest::new("Y", "M", "0200", 6007040979).unwrap();
    req.tags.insert(0, "2371492071643".to_string());
    req.tags.insert(22, "000000000010".to_string());
    req.iso_fields
        .insert(2, extfg_sigma::IsoFieldData::Text("555544******1111".to_string()));
    req.iso_subfields
        .insert(19 * 256 + 2, extfg_sigma::IsoFieldData::Text("07".to_string()));
    let encoded = req.encode().unwrap();
    let decoded = SigmaRequest::decode(encoded).unwrap();
    assert_eq!(decoded, req);
}

#[test]
fn from_json_unknown_key_is_incorrect_tag() {
    let payload = r#"{
        "SAF": "N",
        "SRC": "X",
        "MTI": "0100",
        "Zebra": "1"
    }"#;
    let r = SigmaRequest::from_json_value(serde_json::from_str(payload).unwrap());
    assert!(matches!(r, Err(extfg_sigma::Error::IncorrectTag(_))));
}

#[test]
fn from_json_non_object_is_incorrect_data() {
    let r = SigmaRequest::from_json_value(serde_json::from_str("[1,2,3]").unwrap());
    assert!(matches!(r, Err(extfg_sigma::Error::IncorrectData(_))));
}

#[test]
fn decode_raw_iso_payload_stays_raw() {
    // frame: SAF 'N', SRC 'X', MTI "0100", serno, one ISO field whose
    // payload is not valid UTF-8
    let mut frame: Vec<u8> = Vec::new();
    let body: &[u8] = b"NX01000000123123I\x00\x02\x00\x00\x02\xff\xfe";
    frame.extend_from_slice(format!("{:05}", body.len()).as_bytes());
    frame.extend_from_slice(body);
    let req = SigmaRequest::decode(bytes::Bytes::from(frame)).unwrap();
    let payload = req.iso_fields.get(2).unwrap();
    assert_eq!(payload.as_bytes(), b"\xff\xfe");
    assert_eq!(payload.clone().to_string_lossy(), "\u{fffd}\u{fffd}");
}
