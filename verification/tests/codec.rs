use xframes_bridge::codec::{decode_descriptor, encode_children, encode_descriptor};
use xframes_bridge::descriptor::{ElementDescriptor, ElementKind};
use xframes_bridge::BridgeError;

#[test]
fn encodes_root_node_with_zero_id() {
    let d = ElementDescriptor::node(0, true);
    let v = encode_descriptor(&d).unwrap();
    assert_eq!(v, b"{\"id\":0,\"type\":\"node\",\"root\":true}".to_vec());
}

#[test]
fn encodes_plain_node() {
    let d = ElementDescriptor::node(42, false);
    let v = encode_descriptor(&d).unwrap();
    assert_eq!(v, b"{\"id\":42,\"type\":\"node\"}".to_vec());
}

#[test]
fn encodes_unformatted_text() {
    let d = ElementDescriptor::unformatted_text(1, b"Hello, world".to_vec());
    let v = encode_descriptor(&d).unwrap();
    assert_eq!(
        v,
        b"{\"id\":1,\"type\":\"unformatted-text\",\"text\":\"Hello, world\"}".to_vec()
    );
}

#[test]
fn escapes_quotes_and_backslashes() {
    let d = ElementDescriptor::unformatted_text(3, b"a\"b\\c".to_vec());
    let v = encode_descriptor(&d).unwrap();
    assert_eq!(
        v,
        b"{\"id\":3,\"type\":\"unformatted-text\",\"text\":\"a\\\"b\\\\c\"}".to_vec()
    );
}

#[test]
fn rejects_control_bytes_whole() {
    let d = ElementDescriptor::unformatted_text(3, vec![65, 1, 66]);
    assert_eq!(encode_descriptor(&d), Err(BridgeError::Encoding));
}

#[test]
fn round_trips_zero_id_root_node() {
    let d = ElementDescriptor::node(0, true);
    let v = encode_descriptor(&d).unwrap();
    assert_eq!(decode_descriptor(&v).unwrap(), ElementDescriptor::node(0, true));
}

#[test]
fn round_trips_plain_node_and_text() {
    for d in [
        ElementDescriptor::node(7, false),
        ElementDescriptor::node(4294967295, true),
        ElementDescriptor::unformatted_text(0, b"".to_vec()),
        ElementDescriptor::unformatted_text(1, b"Hello, world".to_vec()),
        ElementDescriptor::unformatted_text(90001, b"q\"\\\" \\\\ end".to_vec()),
    ] {
        let v = encode_descriptor(&d).unwrap();
        assert_eq!(decode_descriptor(&v).unwrap(), d);
    }
}

#[test]
fn decoder_rejects_malformed_documents() {
    let cases: Vec<&[u8]> = vec![
        b"",
        b"{\"id\":}",
        b"{\"id\":01,\"type\":\"node\"}",
        b"{\"id\":5,\"type\":\"node\"",
        b"{\"id\":5,\"type\":\"nodes\"}",
        b"{\"id\":99999999999,\"type\":\"node\"}",
        b"{\"id\":1,\"type\":\"unformatted-text\",\"text\":\"open",
        b"{\"id\":1,\"type\":\"unformatted-text\",\"text\":\"a\\nb\"}",
        b"[1]",
    ];
    for c in cases {
        assert_eq!(decode_descriptor(&c.to_vec()), Err(BridgeError::Encoding));
    }
}

#[test]
fn decoder_id_zero_not_confused_with_other_ids() {
    let zero = decode_descriptor(&b"{\"id\":0,\"type\":\"node\",\"root\":true}".to_vec()).unwrap();
    assert_eq!(zero.id, 0);
    let ten = decode_descriptor(&b"{\"id\":10,\"type\":\"node\",\"root\":true}".to_vec()).unwrap();
    assert_eq!(ten.id, 10);
    assert!(matches!(zero.kind, ElementKind::Node { root: true }));
}

#[test]
fn encodes_child_lists_in_order() {
    assert_eq!(encode_children(&vec![]), b"[]".to_vec());
    assert_eq!(encode_children(&vec![1]), b"[1]".to_vec());
    assert_eq!(encode_children(&vec![3, 1, 20]), b"[3,1,20]".to_vec());
    assert_eq!(encode_children(&vec![0, 0]), b"[0,0]".to_vec());
}

#[test]
fn encoded_documents_parse_as_json_with_exact_fields() {
    let root = encode_descriptor(&ElementDescriptor::node(0, true)).unwrap();
    let parsed: serde_json::Value = serde_json::from_slice(&root).unwrap();
    assert_eq!(parsed["id"], serde_json::Value::from(0u32));
    assert_eq!(parsed["type"], serde_json::Value::from("node"));
    assert_eq!(parsed["root"], serde_json::Value::from(true));

    let text =
        encode_descriptor(&ElementDescriptor::unformatted_text(1, b"a\"b\\c".to_vec())).unwrap();
    let parsed: serde_json::Value = serde_json::from_slice(&text).unwrap();
    assert_eq!(parsed["id"], serde_json::Value::from(1u32));
    assert_eq!(parsed["type"], serde_json::Value::from("unformatted-text"));
    assert_eq!(parsed["text"], serde_json::Value::from("a\"b\\c"));

    let children: serde_json::Value =
        serde_json::from_slice(&encode_children(&vec![3, 1, 20])).unwrap();
    assert_eq!(children, serde_json::Value::from(vec![3u32, 1, 20]));
}
