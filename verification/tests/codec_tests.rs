//! The wire format: round trips, JSON compatibility, and rejection of
//! malformed values.

use svc_registry::codec::{check_encodable, parse_instance, serialize_instance};
use svc_registry::instance::ServiceInstance;

fn sample_instance() -> ServiceInstance {
    ServiceInstance {
        id: String::from("xcTZJv2aWBX6QCSe0beNQ"),
        name: String::from("user.rpc"),
        endpoints: vec![
            String::from("192.168.0.6:20001"),
            String::from("192.168.0.6:20002"),
        ],
        version: String::from("0.1"),
        metadata: vec![
            (String::from("zone"), String::from("a")),
            (String::from("weight"), String::from("10")),
        ],
    }
}

fn assert_same(a: &ServiceInstance, b: &ServiceInstance) {
    assert_eq!(a.id, b.id);
    assert_eq!(a.name, b.name);
    assert_eq!(a.endpoints, b.endpoints);
    assert_eq!(a.version, b.version);
    assert_eq!(a.metadata, b.metadata);
}

#[test]
fn round_trip_plain_record() {
    let inst = sample_instance();
    assert!(check_encodable(&inst));
    let bytes = serialize_instance(&inst);
    let back = parse_instance(bytes.as_slice()).expect("canonical encoding must parse");
    assert_same(&inst, &back);
}

#[test]
fn round_trip_empty_collections() {
    let inst = ServiceInstance {
        id: String::from("a"),
        name: String::from("svc"),
        endpoints: vec![],
        version: String::new(),
        metadata: vec![],
    };
    assert!(check_encodable(&inst));
    let bytes = serialize_instance(&inst);
    let back = parse_instance(bytes.as_slice()).expect("canonical encoding must parse");
    assert_same(&inst, &back);
}

#[test]
fn round_trip_escapes_and_unicode() {
    let inst = ServiceInstance {
        id: String::from("id-1"),
        name: String::from("svc"),
        endpoints: vec![String::from("h:1")],
        version: String::from("v\"1\"\\\n\r\t"),
        metadata: vec![(String::from("note"), String::from("caf\u{e9} \u{4e2d}\u{6587}"))],
    };
    assert!(check_encodable(&inst));
    let bytes = serialize_instance(&inst);
    let back = parse_instance(bytes.as_slice()).expect("canonical encoding must parse");
    assert_same(&inst, &back);
}

#[test]
fn rejects_control_characters() {
    let inst = ServiceInstance {
        id: String::from("id\u{1}"),
        name: String::from("svc"),
        endpoints: vec![],
        version: String::new(),
        metadata: vec![],
    };
    assert!(!check_encodable(&inst));
}

#[test]
fn exact_encoding_bytes() {
    let inst = ServiceInstance {
        id: String::from("i1"),
        name: String::from("user.rpc"),
        endpoints: vec![String::from("10.0.0.1:9000")],
        version: String::from("0.1"),
        metadata: vec![(String::from("k"), String::from("v"))],
    };
    let bytes = serialize_instance(&inst);
    let expected = "{\"id\":\"i1\",\"name\":\"user.rpc\",\"endpoints\":[\"10.0.0.1:9000\"],\"version\":\"0.1\",\"metadata\":{\"k\":\"v\"}}";
    assert_eq!(bytes, expected.as_bytes().to_vec());
}

#[test]
fn output_is_json_readable_by_serde() {
    let inst = sample_instance();
    let bytes = serialize_instance(&inst);
    let value: serde_json::Value =
        serde_json::from_slice(bytes.as_slice()).expect("output must be valid JSON");
    assert_eq!(value["id"], serde_json::Value::String(String::from("xcTZJv2aWBX6QCSe0beNQ")));
    assert_eq!(value["name"], serde_json::Value::String(String::from("user.rpc")));
    assert_eq!(
        value["endpoints"][1],
        serde_json::Value::String(String::from("192.168.0.6:20002"))
    );
    assert_eq!(value["version"], serde_json::Value::String(String::from("0.1")));
    assert_eq!(value["metadata"]["zone"], serde_json::Value::String(String::from("a")));
    assert_eq!(value["metadata"]["weight"], serde_json::Value::String(String::from("10")));
}

#[test]
fn escaped_output_is_json_readable_by_serde() {
    let inst = ServiceInstance {
        id: String::from("i"),
        name: String::from("s"),
        endpoints: vec![],
        version: String::from("a\"b\\c\nd\re\tf"),
        metadata: vec![],
    };
    let bytes = serialize_instance(&inst);
    let value: serde_json::Value =
        serde_json::from_slice(bytes.as_slice()).expect("output must be valid JSON");
    assert_eq!(value["version"], serde_json::Value::String(String::from("a\"b\\c\nd\re\tf")));
}

#[test]
fn malformed_values_are_rejected() {
    let cases: Vec<&[u8]> = vec![
        b"",
        b"{}",
        b"not json at all",
        b"{\"id\":\"a\"}",
        b"{\"id\":\"a\",\"name\":\"b\",\"endpoints\":[],\"version\":\"c\",\"metadata\":{}",
        b"{\"id\":\"a\",\"name\":\"b\",\"endpoints\":[],\"version\":\"c\",\"metadata\":{}}x",
        b"{\"id\":\"a\",\"name\":\"b\",\"endpoints\":[1],\"version\":\"c\",\"metadata\":{}}",
        b"{\"id\":\"a\",\"name\":\"b\",\"endpoints\":[],\"version\":\"c\",\"metadata\":{\"k\":1}}",
        b"{\"id\":\"a\\x\",\"name\":\"b\",\"endpoints\":[],\"version\":\"c\",\"metadata\":{}}",
    ];
    for bytes in cases {
        assert!(parse_instance(bytes).is_none());
    }
    // Invalid UTF-8 inside a string literal is refused too.
    let mut bad = b"{\"id\":\"".to_vec();
    bad.push(0xff);
    bad.extend_from_slice(b"\",\"name\":\"b\",\"endpoints\":[],\"version\":\"c\",\"metadata\":{}}");
    assert!(parse_instance(bad.as_slice()).is_none());
}

#[test]
fn parse_accepts_only_the_canonical_field_order() {
    let swapped = "{\"name\":\"b\",\"id\":\"a\",\"endpoints\":[],\"version\":\"c\",\"metadata\":{}}";
    assert!(parse_instance(swapped.as_bytes()).is_none());
}
