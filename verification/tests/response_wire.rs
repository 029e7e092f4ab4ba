use extfg_sigma::{validate_mti, validate_saf, validate_source, Error, FeeData, SigmaResponse};

#[test]
fn decode_sigma_response() {
    let s = bytes::Bytes::from_static(b"0002401104007040978T\x00\x31\x00\x00\x048495");

    let resp = SigmaResponse::decode(s).unwrap();
    assert_eq!(resp.mti(), "0110");
    assert_eq!(resp.auth_serno, 4007040978);
    assert_eq!(resp.reason, 8495);

    let serialized = resp.to_json_string();
    assert_eq!(
        serialized,
        r#"{"mti":"0110","auth_serno":4007040978,"reason":8495}"#
    );
}

#[test]
fn decode_sigma_response_incorrect_auth_serno() {
    let s = bytes::Bytes::from_static(b"000250110XYZ7040978T\x00\x31\x00\x00\x048100");

    assert!(SigmaResponse::decode(s).is_err());
}

#[test]
fn decode_sigma_response_incorrect_reason() {
    let s = bytes::Bytes::from_static(b"0002501104007040978T\x00\x31\x00\x00\x04ABCD");

    assert!(SigmaResponse::decode(s).is_err());
}

#[test]
fn decode_sigma_response_fee_data() {
    let s = bytes::Bytes::from_static(
        b"0004001104007040978T\x00\x31\x00\x00\x048100T\x00\x32\x00\x00\x108116978300",
    );

    let resp = SigmaResponse::decode(s).unwrap();
    assert_eq!(resp.mti(), "0110");
    assert_eq!(resp.auth_serno, 4007040978);
    assert_eq!(resp.reason, 8100);

    let serialized = resp.to_json_string();
    assert_eq!(
        serialized,
        r#"{"mti":"0110","auth_serno":4007040978,"reason":8100,"fees":[{"reason":8116,"currency":978,"amount":300}]}"#
    );
}

#[test]
fn decode_sigma_response_correct_short_auth_serno() {
    let s = bytes::Bytes::from_static(b"000240110123123    T\x00\x31\x00\x00\x048100");

    let resp = SigmaResponse::decode(s).unwrap();
    assert_eq!(resp.mti(), "0110");
    assert_eq!(resp.auth_serno, 123123);
    assert_eq!(resp.reason, 8100);

    let serialized = resp.to_json_string();
    assert_eq!(
        serialized,
        r#"{"mti":"0110","auth_serno":123123,"reason":8100}"#
    );
}

#[test]
fn decode_fee_data() {
    let data = b"8116978300";

    let fee = FeeData::from_slice(data).unwrap();
    assert_eq!(fee.reason, 8116);
    assert_eq!(fee.currency, 978);
    assert_eq!(fee.amount, 300);
}

#[test]
fn decode_fee_data_large_amount() {
    let data = b"8116643123456789";

    let fee = FeeData::from_slice(data).unwrap();
    assert_eq!(fee.reason, 8116);
    assert_eq!(fee.currency, 643);
    assert_eq!(fee.amount, 123456789);
}

#[test]
fn decode_fee_data_short_slice() {
    assert!(matches!(
        FeeData::from_slice(b"8116978"),
        Err(Error::IncorrectData(_))
    ));
}

#[test]
fn decode_sigma_response_fee_data_additional_data() {
    let s = bytes::Bytes::from_static(b"0015201104007040978T\x00\x31\x00\x00\x048100T\x00\x32\x00\x00\x1181166439000T\x00\x48\x00\x01\x05CJyuARCDBRibpKn+BSIVCgx0ZmE6FwAAAKoXmwIQnK4BGLcBIhEKDHRmcDoWAAAAxxX+ARik\nATCBu4PdBToICKqv7BQQgwVAnK4BSAI=");

    let resp = SigmaResponse::decode(s).unwrap();
    assert_eq!(resp.mti(), "0110");
    assert_eq!(resp.auth_serno, 4007040978);
    assert_eq!(resp.reason, 8100);

    let serialized = resp.to_json_string();
    assert_eq!(
        serialized,
        r#"{"mti":"0110","auth_serno":4007040978,"reason":8100,"fees":[{"reason":8116,"currency":643,"amount":9000}],"adata":"CJyuARCDBRibpKn+BSIVCgx0ZmE6FwAAAKoXmwIQnK4BGLcBIhEKDHRmcDoWAAAAxxX+ARik\nATCBu4PdBToICKqv7BQQgwVAnK4BSAI="}"#
    );
}

#[test]
fn encode_fee_data() {
    let fee_data = FeeData {
        reason: 8123,
        currency: 643,
        amount: 1234567890,
    };

    assert_eq!(fee_data.encode().unwrap()[..], b"81236431234567890"[..]);
}

#[test]
fn encode_fee_data_incorrect() {
    assert!(FeeData {
        reason: 10000,
        currency: 643,
        amount: 1234567890,
    }
    .encode()
    .is_err());

    assert!(FeeData {
        reason: 8123,
        currency: 6430,
        amount: 1234567890,
    }
    .encode()
    .is_err());
}

#[test]
fn encode_sigma_response_fee_data_additional_data() {
    let src = r#"{"mti":"0110","auth_serno":4007040978,"reason":8100,"fees":[{"reason":8116,"currency":643,"amount":9000}],"adata":"CJyuARCDBRibpKn+BSIVCgx0ZmE6FwAAAKoXmwIQnK4BGLcBIhEKDHRmcDoWAAAAxxX+ARik\nATCBu4PdBToICKqv7BQQgwVAnK4BSAI="}"#;
    let v: serde_json::Value = serde_json::from_str(src).unwrap();
    let mut response = SigmaResponse::new(
        v["mti"].as_str().unwrap(),
        v["auth_serno"].as_u64().unwrap(),
        v["reason"].as_u64().unwrap() as u32,
    )
    .unwrap();
    for fee in v["fees"].as_array().unwrap() {
        response.fees.push(FeeData {
            reason: fee["reason"].as_u64().unwrap() as u16,
            currency: fee["currency"].as_u64().unwrap() as u16,
            amount: fee["amount"].as_u64().unwrap(),
        });
    }
    response.adata = v["adata"].as_str().map(|s| s.to_string());

    let target = b"0015201104007040978T\x00\x31\x00\x00\x048100T\x00\x32\x00\x00\x1181166439000T\x00\x48\x00\x01\x05CJyuARCDBRibpKn+BSIVCgx0ZmE6FwAAAKoXmwIQnK4BGLcBIhEKDHRmcDoWAAAAxxX+ARik\nATCBu4PdBToICKqv7BQQgwVAnK4BSAI=";
    assert_eq!(response.encode().unwrap()[..], target[..])
}

#[test]
fn validate_saf_field() {
    assert!(validate_saf("Y").is_ok());
    assert!(validate_saf("N").is_ok());

    assert!(validate_saf("").is_err());
    assert!(validate_saf("YY").is_err());
    assert!(validate_saf("NN").is_err());
    assert!(validate_saf("A").is_err());
}

#[test]
fn validate_source_field() {
    assert!(validate_source("Y").is_ok());
    assert!(validate_source("N").is_ok());

    assert!(validate_source("").is_err());
    assert!(validate_source("YY").is_err());
    assert!(validate_source("NN").is_err());
}

#[test]
fn validate_mti_field() {
    assert!(validate_mti("0120").is_ok());

    assert!(validate_mti("").is_err());
    assert!(validate_mti("120").is_err());
    assert!(validate_mti("00120").is_err());
    assert!(validate_mti("O120").is_err());
}

#[test]
fn response_wire_round_trip() {
    let mut resp = SigmaResponse::new("0110", 4007040978, 8100).unwrap();
    resp.fees.push(FeeData {
        reason: 81,
        currency: 7,
        amount: 9000,
    });
    resp.adata = Some("hello world".to_string());
    let encoded = resp.encode().unwrap();
    let decoded = SigmaResponse::decode(encoded).unwrap();
    assert_eq!(decoded.mti(), resp.mti());
    assert_eq!(decoded.auth_serno, resp.auth_serno);
    assert_eq!(decoded.reason, resp.reason);
    assert_eq!(decoded.fees, resp.fees);
    assert_eq!(decoded.adata, resp.adata);
}

#[test]
fn response_without_reason_field_decodes_to_zero() {
    // one uninterpreted field only; reason defaults to 0
    let s = bytes::Bytes::from_static(b"0002401104007040978T\x00\x30\x00\x00\x049999");
    let resp = SigmaResponse::decode(s).unwrap();
    assert_eq!(resp.reason, 0);
    assert!(resp.fees.is_empty());
    assert_eq!(resp.adata, None);
}

#[test]
fn response_truncations_return_bounds() {
    let full: &[u8] =
        b"0004001104007040978T\x00\x31\x00\x00\x048100T\x00\x32\x00\x00\x108116978300";
    for n in 0..full.len() {
        let cut = bytes::Bytes::copy_from_slice(&full[..n]);
        assert!(matches!(
            SigmaResponse::decode(cut),
            Err(Error::Bounds(_))
        ));
    }
}

#[test]
fn request_truncations_return_bounds() {
    let full: &[u8] = b"00026NX01000000123123T\x00\x02\x00\x00\x0402hi";
    let whole = bytes::Bytes::copy_from_slice(full);
    assert!(extfg_sigma::SigmaRequest::decode(whole).is_ok());
    for n in 0..full.len() {
        let cut = bytes::Bytes::copy_from_slice(&full[..n]);
        assert!(matches!(
            extfg_sigma::SigmaRequest::decode(cut),
            Err(Error::Bounds(_))
        ));
    }
}

#[test]
fn adata_json_escaping() {
    let mut resp = SigmaResponse::new("0110", 1, 2).unwrap();
    resp.adata = Some("a\"b\\c\nd\u{1}e".to_string());
    assert_eq!(
        resp.to_json_string(),
        "{\"mti\":\"0110\",\"auth_serno\":1,\"reason\":2,\"adata\":\"a\\\"b\\\\c\\nd\\u0001e\"}"
    );
}

#[test]
fn lossy_adata_replaces_invalid_bytes() {
    // Regular(48) payload holds bytes that are not valid UTF-8
    let s = bytes::Bytes::from_static(b"0002401104007040978T\x00\x48\x00\x00\x04ab\xff\xfe");
    let resp = SigmaResponse::decode(s).unwrap();
    assert_eq!(resp.adata, Some("ab\u{fffd}\u{fffd}".to_string()));
}

#[test]
fn error_variants_by_input() {
    // missing header key
    let r = extfg_sigma::SigmaRequest::from_json_value(serde_json::from_str("{}").unwrap());
    assert!(matches!(r, Err(Error::MissingField(_))));

    // header with the wrong shape
    let r = extfg_sigma::SigmaRequest::new("Q", "X", "0100", 0);
    assert!(matches!(r, Err(Error::IncorrectFieldData { .. })));

    // numeric value out of range
    assert!(matches!(
        extfg_sigma::encode_bcd_x2(100),
        Err(Error::Bounds(_))
    ));

    // unknown tag kind byte on the wire
    let mut cur = bytes::Bytes::from_static(b"Q\x00\x09\x00\x00\x00");
    assert!(matches!(
        extfg_sigma::decode_field_from_cursor(&mut cur),
        Err(Error::IncorrectTag(_))
    ));

    // fee payload too short
    assert!(matches!(
        FeeData::from_slice(b"81"),
        Err(Error::IncorrectData(_))
    ));
}
