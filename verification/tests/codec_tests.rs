use snmpkit::bodies::{
    decode_close_pdu, decode_get_pdu, decode_getbulk_pdu, decode_open_pdu,
    decode_register_pdu, decode_response_pdu, decode_testset_pdu, encode_close_pdu,
    encode_notify_pdu, encode_open_pdu, encode_ping_pdu, encode_register_pdu,
    encode_response_pdu, encode_unregister_pdu, CloseReason, ResponseError,
};
use snmpkit::header::{decode_header, PduType, FLAG_NETWORK_BYTE_ORDER, FLAG_NON_DEFAULT_CONTEXT};
use snmpkit::oid::Oid;
use snmpkit::pdu::VarBind;
use snmpkit::types::Value;
use snmpkit::CodecError;

#[test]
fn test_open_roundtrip() {
    let id: Oid = "1.3.6.1.4.1.42".parse().unwrap();
    let buf = encode_open_pdu(1, 2, 3, 5, &id, b"test");

    assert_eq!(buf.len() % 4, 0);
    let h = decode_header(&buf).unwrap();
    assert_eq!(h.pdu_type, PduType::Open);
    assert!(h.flags & FLAG_NETWORK_BYTE_ORDER != 0);
    assert_eq!(h.session_id, 1);
    assert_eq!(h.transaction_id, 2);
    assert_eq!(h.packet_id, 3);
    assert_eq!(h.payload_length as usize, buf.len() - 20);
    assert_eq!(h.payload_length % 4, 0);

    let body = decode_open_pdu(&buf[20..], h.flags).unwrap();
    assert_eq!(body.timeout, 5);
    assert_eq!(body.id.to_string(), "1.3.6.1.4.1.42");
    assert_eq!(body.descr, b"test".to_vec());
}

#[test]
fn test_register_with_context() {
    let subtree: Oid = "1.3.6.1.2.1".parse().unwrap();
    let buf = encode_register_pdu(9, 8, 7, &subtree, 127, 0, Some(b"ctx1"));

    let h = decode_header(&buf).unwrap();
    assert_eq!(h.pdu_type, PduType::Register);
    assert!(h.flags & FLAG_NON_DEFAULT_CONTEXT != 0);
    assert!(h.flags & FLAG_NETWORK_BYTE_ORDER != 0);
    assert_eq!(h.payload_length % 4, 0);

    let body = decode_register_pdu(&buf[20..], h.flags).unwrap();
    assert_eq!(body.context, Some(b"ctx1".to_vec()));
    assert_eq!(body.subtree.to_string(), "1.3.6.1.2.1");
    assert_eq!(body.priority, 127);
    assert_eq!(body.timeout, 0);
    assert_eq!(body.range_subid, 0);
    assert_eq!(body.upper_bound, None);
}

#[test]
fn test_error_response_carries_varbinds() {
    // an error response still carries whatever bindings the caller gave
    let vbs = vec![VarBind::new(
        "1.3.6.1.2.1.1.1.0".parse().unwrap(),
        Value::integer(9),
    )];
    let buf = encode_response_pdu(1, 2, 3, 0, 256, 2, &vbs);
    let h = decode_header(&buf).unwrap();
    let body = decode_response_pdu(&buf[20..], h.flags).unwrap();
    assert!(body.is_error());
    assert_eq!(body.error, 256);
    assert_eq!(body.index, 2);
    assert_eq!(body.varbinds.len(), 1);
    assert_eq!(body.varbinds[0].oid.to_string(), "1.3.6.1.2.1.1.1.0");
    assert_eq!(body.varbinds[0].value.as_integer(), Some(9));
}

#[test]
fn test_response_error_path() {
    let buf = encode_response_pdu(1, 2, 3, 0, 263, 1, &Vec::new());

    let h = decode_header(&buf).unwrap();
    assert_eq!(h.pdu_type, PduType::Response);

    let body = decode_response_pdu(&buf[20..], h.flags).unwrap();
    assert!(body.is_error());
    assert_eq!(body.error, 263);
    assert_eq!(ResponseError::from_code(body.error), ResponseError::DuplicateRegistration);
    assert_eq!(body.index, 1);
    assert_eq!(body.varbinds.len(), 0);
}

#[test]
fn test_response_varbind_roundtrip() {
    let name: Oid = "1.3.6.1.2.1.1.3.0".parse().unwrap();
    let vbs = vec![
        VarBind::new(name.clone(), Value::timeticks(12345)),
        VarBind::new("1.3.6.1.2.1.1.5.0".parse().unwrap(), Value::string("host")),
        VarBind::new("1.3.6.1.9".parse().unwrap(), Value::counter64(1 << 40)),
        VarBind::new("1.3.6.1.10".parse().unwrap(), Value::integer(-5)),
        VarBind::new(
            "1.3.6.1.11".parse().unwrap(),
            Value::oid("1.3.6.1.4.1".parse().unwrap()),
        ),
        VarBind::new("1.3.6.1.12".parse().unwrap(), Value::ip_address([192, 168, 1, 1])),
        VarBind::new("1.3.6.1.13".parse().unwrap(), Value::EndOfMibView),
    ];
    let buf = encode_response_pdu(5, 6, 7, 99, 0, 0, &vbs);
    assert_eq!(buf.len() % 4, 0);

    let h = decode_header(&buf).unwrap();
    let body = decode_response_pdu(&buf[20..], h.flags).unwrap();
    assert!(!body.is_error());
    assert_eq!(body.sys_uptime, 99);
    assert_eq!(body.varbinds.len(), 7);
    assert_eq!(body.varbinds[0].oid, name);
    assert_eq!(body.varbinds[0].value.as_counter32(), None);
    assert_eq!(body.varbinds[0].value.kind_name(), "TimeTicks");
    assert_eq!(body.varbinds[1].value.as_octet_string(), Some(b"host".as_slice()));
    assert_eq!(body.varbinds[2].value.as_counter64(), Some(1 << 40));
    assert_eq!(body.varbinds[3].value.as_integer(), Some(-5));
    assert_eq!(body.varbinds[4].value.as_oid().unwrap().to_string(), "1.3.6.1.4.1");
    assert_eq!(body.varbinds[5].value.kind_name(), "IpAddress");
    assert_eq!(body.varbinds[6].value.kind_name(), "EndOfMibView");
}

#[test]
fn test_close_roundtrip() {
    let buf = encode_close_pdu(1, 2, 3, 5);
    assert_eq!(buf.len(), 24);
    let h = decode_header(&buf).unwrap();
    assert_eq!(h.pdu_type, PduType::Close);
    assert_eq!(h.payload_length, 4);
    let body = decode_close_pdu(&buf[20..]).unwrap();
    assert_eq!(body.reason, CloseReason::Shutdown);
}

#[test]
fn test_close_unknown_reason_is_other() {
    let buf = encode_close_pdu(1, 2, 3, 200);
    let body = decode_close_pdu(&buf[20..]).unwrap();
    assert_eq!(body.reason, CloseReason::Other);
}

#[test]
fn test_unregister_roundtrip_header() {
    let subtree: Oid = "1.3.6.1.2.1".parse().unwrap();
    let buf = encode_unregister_pdu(9, 8, 7, &subtree, 64, None);
    let h = decode_header(&buf).unwrap();
    assert_eq!(h.pdu_type, PduType::Unregister);
    assert!(h.flags & FLAG_NON_DEFAULT_CONTEXT == 0);
    // an Unregister body reads with the Register parser: byte 0 is reserved
    let body = decode_register_pdu(&buf[20..], h.flags).unwrap();
    assert_eq!(body.priority, 64);
    assert_eq!(body.subtree.to_string(), "1.3.6.1.2.1");
}

#[test]
fn test_ping_roundtrip() {
    let buf = encode_ping_pdu(11, 12, 13);
    assert_eq!(buf.len(), 20);
    let h = decode_header(&buf).unwrap();
    assert_eq!(h.pdu_type, PduType::Ping);
    assert_eq!(h.payload_length, 0);
    assert_eq!(h.session_id, 11);
}

#[test]
fn test_notify_testset_shape() {
    let vbs = vec![VarBind::new(
        "1.3.6.1.6.3.1.1.4.1.0".parse().unwrap(),
        Value::oid("1.3.6.1.6.3.1.1.5.1".parse().unwrap()),
    )];
    let buf = encode_notify_pdu(1, 2, 3, &vbs, Some(b"nctx"));
    let h = decode_header(&buf).unwrap();
    assert_eq!(h.pdu_type, PduType::Notify);
    // a Notify body has the TestSet layout
    let body = decode_testset_pdu(&buf[20..], h.flags).unwrap();
    assert_eq!(body.context, Some(b"nctx".to_vec()));
    assert_eq!(body.varbinds.len(), 1);
    assert_eq!(
        body.varbinds[0].oid.to_string(),
        "1.3.6.1.6.3.1.1.4.1.0"
    );
}

#[test]
fn test_header_exact_bytes() {
    let buf = encode_ping_pdu(0x01020304, 0x05060708, 0x090a0b0c);
    assert_eq!(
        buf,
        vec![
            1, 13, 16, 0, 1, 2, 3, 4, 5, 6, 7, 8, 9, 10, 11, 12, 0, 0, 0, 0
        ]
    );
}

#[test]
fn test_decode_header_errors() {
    assert_eq!(decode_header(&[1, 2, 3]), Err(CodecError::ShortRead));
    let mut buf = encode_ping_pdu(1, 2, 3);
    buf[0] = 2;
    assert_eq!(decode_header(&buf), Err(CodecError::UnsupportedVersion));
    buf[0] = 1;
    buf[1] = 99;
    assert_eq!(decode_header(&buf), Err(CodecError::Malformed));
}

#[test]
fn test_decode_open_malformed() {
    let id: Oid = "1.3.6.1".parse().unwrap();
    let buf = encode_open_pdu(1, 2, 3, 0, &id, b"d");
    let h = decode_header(&buf).unwrap();
    // a description length pointing past the payload is malformed
    let mut body = buf[20..].to_vec();
    let n = body.len();
    body[n - 8] = 0xff;
    assert!(matches!(
        decode_open_pdu(&body, h.flags),
        Err(CodecError::Malformed)
    ));
    // a truncated body is a short read
    assert!(matches!(
        decode_open_pdu(&buf[20..22], h.flags),
        Err(CodecError::ShortRead)
    ));
}

#[test]
fn test_get_decode_hand_built() {
    // a Get payload holding one search range: 1.3.6.1 .. (unbounded)
    let mut payload: Vec<u8> = Vec::new();
    payload.extend_from_slice(&[4, 0, 1, 0]); // start: 4 subids, include set
    for sub in [1u32, 3, 6, 1] {
        payload.extend_from_slice(&sub.to_be_bytes());
    }
    payload.extend_from_slice(&[0, 0, 0, 0]); // end: empty OID
    let body = decode_get_pdu(&payload, FLAG_NETWORK_BYTE_ORDER).unwrap();
    assert_eq!(body.context, None);
    assert_eq!(body.ranges.len(), 1);
    assert_eq!(body.ranges[0].start.to_string(), "1.3.6.1");
    assert!(body.ranges[0].incl);
    assert!(body.ranges[0].end.is_none());
}

#[test]
fn test_get_decode_prefix_compression() {
    // prefix byte 4 abbreviates 1.3.6.1.4; one trailing subid 42
    let mut payload: Vec<u8> = Vec::new();
    payload.extend_from_slice(&[1, 4, 0, 0]);
    payload.extend_from_slice(&42u32.to_be_bytes());
    payload.extend_from_slice(&[0, 0, 0, 0]);
    let body = decode_get_pdu(&payload, FLAG_NETWORK_BYTE_ORDER).unwrap();
    assert_eq!(body.ranges[0].start.to_string(), "1.3.6.1.4.42");
}

#[test]
fn test_get_decode_little_endian() {
    // without NETWORK_BYTE_ORDER the sub-identifiers read little-endian
    let mut payload: Vec<u8> = Vec::new();
    payload.extend_from_slice(&[1, 0, 0, 0]);
    payload.extend_from_slice(&7u32.to_le_bytes());
    payload.extend_from_slice(&[0, 0, 0, 0]);
    let body = decode_get_pdu(&payload, 0).unwrap();
    assert_eq!(body.ranges[0].start.to_string(), "7");
}

#[test]
fn test_getbulk_decode() {
    let mut payload: Vec<u8> = Vec::new();
    payload.extend_from_slice(&1u16.to_be_bytes());
    payload.extend_from_slice(&10u16.to_be_bytes());
    payload.extend_from_slice(&[2, 0, 0, 0]);
    payload.extend_from_slice(&1u32.to_be_bytes());
    payload.extend_from_slice(&3u32.to_be_bytes());
    payload.extend_from_slice(&[0, 0, 0, 0]);
    let body = decode_getbulk_pdu(&payload, FLAG_NETWORK_BYTE_ORDER).unwrap();
    assert_eq!(body.non_repeaters, 1);
    assert_eq!(body.max_repetitions, 10);
    assert_eq!(body.ranges.len(), 1);
    assert_eq!(body.ranges[0].start.to_string(), "1.3");
}

#[test]
fn test_testset_decode_trailing_garbage_fails() {
    // a payload that does not land exactly on a binding boundary is rejected
    let payload = vec![0u8, 2, 0, 0, 1];
    assert!(decode_testset_pdu(&payload, FLAG_NETWORK_BYTE_ORDER).is_err());
}

#[test]
fn test_oversized_oid_malformed() {
    let mut payload: Vec<u8> = Vec::new();
    payload.extend_from_slice(&[200, 0, 0, 0]);
    let r = decode_get_pdu(&payload, FLAG_NETWORK_BYTE_ORDER);
    assert!(matches!(r, Err(CodecError::Malformed)));
}

#[test]
fn test_exports() {
    let h = snmpkit::Header {
        pdu_type: PduType::Open,
        flags: FLAG_NETWORK_BYTE_ORDER,
        session_id: 0,
        transaction_id: 0,
        packet_id: 0,
        payload_length: 0,
    };
    assert_eq!(h.pdu_type.code(), 1);
    assert_eq!(FLAG_NETWORK_BYTE_ORDER, 16);
}
