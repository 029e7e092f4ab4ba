use extfg_sigma::{ClientProtocolError, SigmaClientProtocol, SigmaRequest};

#[test]
fn decode_zero() {
    let data: &[u8] = b"";
    let mut buf: Vec<u8> = data.to_vec();

    let mut proto = SigmaClientProtocol;
    assert!(matches!(proto.decode(&mut buf), Ok(None)));
    assert_eq!(buf, data);
}

#[test]
fn decode_incomplete_length() {
    let data: &[u8] = b"0002";
    let mut buf: Vec<u8> = data.to_vec();

    let mut proto = SigmaClientProtocol;
    assert!(matches!(proto.decode(&mut buf), Ok(None)));
    assert_eq!(buf, data);
}

#[test]
fn decode_complete_length() {
    let data: &[u8] = b"00024";
    let mut buf: Vec<u8> = data.to_vec();

    let mut proto = SigmaClientProtocol;
    assert!(matches!(proto.decode(&mut buf), Ok(None)));
    assert_eq!(buf, data);
}

#[test]
fn decode_incomplete_data() {
    let data: &[u8] = b"0002401104007040978T\x00\x31\x00\x00\x0484";
    let mut buf: Vec<u8> = data.to_vec();

    let mut proto = SigmaClientProtocol;
    assert!(matches!(proto.decode(&mut buf), Ok(None)));
    assert_eq!(buf, data);
}

#[test]
fn decode_complete_data() {
    let data: &[u8] = b"0002401104007040978T\x00\x31\x00\x00\x048495";
    let mut buf: Vec<u8> = data.to_vec();

    let mut proto = SigmaClientProtocol;
    assert!(matches!(proto.decode(&mut buf), Ok(Some(_))));
    assert_eq!(buf, b""[..].to_vec());
}

#[test]
fn decode_incremental_feed() {
    let data: &[u8] = b"0002401104007040978T\x00\x31\x00\x00\x048495";
    let mut proto = SigmaClientProtocol;
    let mut buf: Vec<u8> = Vec::new();
    for i in 0..data.len() {
        buf.push(data[i]);
        if i + 1 < data.len() {
            assert!(matches!(proto.decode(&mut buf), Ok(None)));
            assert_eq!(buf.len(), i + 1);
        } else {
            let resp = proto.decode(&mut buf).unwrap().unwrap();
            assert_eq!(resp.mti(), "0110");
            assert_eq!(resp.auth_serno, 4007040978);
            assert_eq!(resp.reason, 8495);
            assert!(buf.is_empty());
        }
    }
}

#[test]
fn decode_non_numeric_prefix() {
    let mut buf: Vec<u8> = b"ab024junk".to_vec();
    let mut proto = SigmaClientProtocol;
    assert!(matches!(
        proto.decode(&mut buf),
        Err(ClientProtocolError::WrongLenInt)
    ));
    assert_eq!(buf, b"ab024junk".to_vec());
}

#[test]
fn decode_non_ascii_prefix() {
    let mut buf: Vec<u8> = b"\xff0024junk".to_vec();
    let mut proto = SigmaClientProtocol;
    assert!(matches!(
        proto.decode(&mut buf),
        Err(ClientProtocolError::WrongLenUtf8)
    ));
    assert_eq!(buf, b"\xff0024junk".to_vec());
}

#[test]
fn decode_leaves_following_frame_in_buffer() {
    let frame: &[u8] = b"0002401104007040978T\x00\x31\x00\x00\x048495";
    let mut buf: Vec<u8> = frame.to_vec();
    buf.extend_from_slice(frame);
    let mut proto = SigmaClientProtocol;

    let first = proto.decode(&mut buf).unwrap().unwrap();
    assert_eq!(first.reason, 8495);
    assert_eq!(buf, frame.to_vec());

    let second = proto.decode(&mut buf).unwrap().unwrap();
    assert_eq!(second.reason, 8495);
    assert!(buf.is_empty());
}

#[test]
fn encode_request_into_stream() {
    let payload = r#"{
            "SAF": "Y",
            "SRC": "M",
            "MTI": "0201",
            "Serno": 7877706965687192023
        }"#;
    let req: SigmaRequest =
        SigmaRequest::from_json_value(serde_json::from_str(payload).unwrap()).unwrap();

    let mut proto = SigmaClientProtocol;
    let mut out: Vec<u8> = Vec::new();
    proto.encode(req, &mut out).unwrap();
    assert_eq!(out, b"00016YM02017877706965".to_vec());
}

#[test]
fn decode_frame_with_bad_serno_is_codec_error() {
    let mut buf: Vec<u8> = b"0002401104XY7040978T\x00\x31\x00\x00\x048495".to_vec();
    let mut proto = SigmaClientProtocol;
    assert!(matches!(
        proto.decode(&mut buf),
        Err(ClientProtocolError::ExtfgSigma(_))
    ));
}
