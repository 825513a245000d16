use snmpkit::oid::Oid;
use snmpkit::types::Value;

#[test]
fn test_value_types() {
    let int_val = Value::integer(-100);
    let str_val = Value::string("test string");
    let counter = Value::counter64(1_000_000);

    assert_eq!(int_val.kind_name(), "Integer");
    assert_eq!(str_val.kind_name(), "OctetString");
    assert_eq!(counter.kind_name(), "Counter64");
}

#[test]
fn test_value_with_oid() {
    let oid: Oid = "1.3.6.1.2.1.1.1.0".parse().unwrap();
    let val = Value::oid(oid);
    assert_eq!(val.display_text(), "1.3.6.1.2.1.1.1.0");
}

#[test]
fn test_snmp_exceptions() {
    let no_such = Value::NoSuchObject;
    let end_of_mib = Value::EndOfMibView;

    assert_eq!(no_such.display_text(), "noSuchObject");
    assert_eq!(end_of_mib.display_text(), "endOfMibView");
}

#[test]
fn test_ip_address() {
    let v = Value::ip_address([192, 168, 1, 1]);
    assert_eq!(v.display_text(), "192.168.1.1");
}

#[test]
fn test_display_text_forms() {
    assert_eq!(Value::integer(42).display_text(), "42");
    assert_eq!(Value::integer(-100).display_text(), "-100");
    assert_eq!(Value::integer(i32::MIN).display_text(), "-2147483648");
    assert_eq!(Value::Null.display_text(), "NULL");
    assert_eq!(Value::counter64(u64::MAX).display_text(), "18446744073709551615");
    assert_eq!(Value::timeticks(0).display_text(), "0");
    assert_eq!(Value::string("hello").display_text(), "hello");
    assert_eq!(Value::octet_string(vec![0xff, 0xfe]).display_text(), "[255, 254]");
    assert_eq!(Value::opaque(vec![1, 2, 3]).display_text(), "[1, 2, 3]");
    assert_eq!(Value::opaque(vec![]).display_text(), "[]");
}

#[test]
fn test_as_str() {
    let v = Value::string("hello");
    assert_eq!(v.as_str(), Some("hello"));
    assert_eq!(Value::octet_string(vec![0xff]).as_str(), None);
    assert_eq!(Value::integer(1).as_str(), None);
}

#[test]
fn test_integer() {
    let v = Value::integer(42);
    assert_eq!(v.as_integer(), Some(42));
    assert_eq!(v.kind_name(), "Integer");
}

#[test]
fn test_octet_string() {
    let v = Value::string("hello");
    assert_eq!(v.as_octet_string(), Some(b"hello".as_slice()));
    assert_eq!(v.kind_name(), "OctetString");
}

#[test]
fn test_counter64() {
    let v = Value::counter64(u64::MAX);
    assert_eq!(v.as_counter64(), Some(u64::MAX));
    assert_eq!(v.kind_name(), "Counter64");
}

#[test]
fn test_oid_value() {
    let oid: Oid = "1.3.6.1.4.1".parse().unwrap();
    let v = Value::oid(oid.clone());
    assert_eq!(v.as_oid(), Some(&oid));
}

#[test]
fn test_value_codes() {
    assert_eq!(Value::integer(1).code(), 2);
    assert_eq!(Value::string("x").code(), 4);
    assert_eq!(Value::Null.code(), 5);
    assert_eq!(Value::ip_address([10, 0, 0, 1]).code(), 64);
    assert_eq!(Value::counter32(9).code(), 65);
    assert_eq!(Value::gauge32(9).code(), 66);
    assert_eq!(Value::timeticks(9).code(), 67);
    assert_eq!(Value::opaque(vec![1]).code(), 68);
    assert_eq!(Value::counter64(9).code(), 70);
    assert_eq!(Value::NoSuchInstance.code(), 129);
}

#[test]
fn test_value_accessors_mismatch() {
    let v = Value::counter32(7);
    assert_eq!(v.as_counter32(), Some(7));
    assert_eq!(v.as_integer(), None);
    assert_eq!(v.as_counter64(), None);
    assert!(v.as_oid().is_none());
    assert!(v.as_octet_string().is_none());
}
