use collab_stream::error::{Shape, StreamError};
use collab_stream::flags::UpdateFlags;
use collab_stream::message_id::MessageId;
use collab_stream::nested::{verify_field, NestedValue, RedisString};
use collab_stream::origin::{collab_origin_from_str, CollabClient, CollabOrigin};
use collab_stream::stream::{StreamBinary, StreamMessage, StreamMessageByStreamKey};

fn scalar(bytes: &[u8]) -> NestedValue {
    NestedValue::Scalar(bytes.to_vec())
}

fn entry(id: &str, field_name: &str, data: &[u8]) -> NestedValue {
    NestedValue::List(vec![
        scalar(id.as_bytes()),
        NestedValue::List(vec![scalar(field_name.as_bytes()), scalar(data)]),
    ])
}

#[test]
fn message_id_text_round_trip() {
    let id = MessageId::new(1631020452097, 0);
    let text = id.to_text();
    assert_eq!(text, "1631020452097-0");
    assert_eq!(MessageId::try_from_str(&text).unwrap(), id);
    assert_eq!(MessageId::try_from_bytes(text.as_bytes()).unwrap(), id);

    let id = MessageId::new(u64::MAX, u16::MAX);
    assert_eq!(MessageId::try_from_str(&id.to_text()).unwrap(), id);
}

#[test]
fn message_id_parse_errors() {
    assert!(matches!(
        MessageId::try_from_str("bad"),
        Err(StreamError::InvalidFormat)
    ));
    assert!(matches!(
        MessageId::try_from_str("12-abc"),
        Err(StreamError::NumericParseError)
    ));
    assert!(matches!(
        MessageId::try_from_str("99999999999999999999999-0"),
        Err(StreamError::NumericParseError)
    ));
    assert!(matches!(
        MessageId::try_from_str("12-70000"),
        Err(StreamError::NumericParseError)
    ));
    assert!(matches!(
        MessageId::try_from_bytes(&[0xff, 0xfe]),
        Err(StreamError::Utf8Error)
    ));
    // leading zeros and a plus sign are accepted, as std's parsers do
    assert_eq!(
        MessageId::try_from_str("007-0").unwrap(),
        MessageId::new(7, 0)
    );
    assert_eq!(
        MessageId::try_from_str("+12-3").unwrap(),
        MessageId::new(12, 3)
    );
}

#[test]
fn message_id_ordering() {
    assert!(MessageId::new(100, 5) < MessageId::new(100, 6));
    assert!(MessageId::new(100, 6) < MessageId::new(101, 0));
    assert!(MessageId::new(100, 5) < MessageId::new(101, 0));
}

#[test]
fn flags_default_and_bits() {
    let f = UpdateFlags::default();
    assert!(f.is_v1_encoded());
    assert!(!f.is_v2_encoded());
    assert!(!f.is_compressed());

    // setting bit 1 flips only the compression, not the encoding version
    let f = UpdateFlags::from(0b10u8);
    assert!(f.is_compressed());
    assert!(f.is_v1_encoded());

    let f = UpdateFlags::from(0b11u8);
    assert!(f.is_compressed());
    assert!(f.is_v2_encoded());

    // reserved bits change nothing
    let f = UpdateFlags::from(0b1111_1100u8);
    assert!(!f.is_compressed());
    assert!(f.is_v1_encoded());
}

#[test]
fn flags_text() {
    assert_eq!(UpdateFlags::from(0u8).to_text(), ".v1");
    assert_eq!(UpdateFlags::from(1u8).to_text(), ".v2");
    assert_eq!(UpdateFlags::from(2u8).to_text(), ".v1.zstd");
    assert_eq!(UpdateFlags::from(3u8).to_text(), ".v2.zstd");
}

#[test]
fn decode_entry_happy_path() {
    let v = entry("1631020452097-42", "data", &[9, 8, 7]);
    let m = StreamMessage::from_redis_value(&v).unwrap();
    assert_eq!(m.id, MessageId::new(1631020452097, 42));
    assert_eq!(m.data, vec![9, 8, 7]);
}

#[test]
fn decode_entry_wrong_field_name() {
    let v = entry("1-0", "wrong", &[1]);
    match StreamMessage::from_redis_value(&v) {
        Err(StreamError::UnexpectedValue(name)) => assert_eq!(name, "wrong"),
        other => panic!("expected UnexpectedValue, got {:?}", other),
    }
}

#[test]
fn decode_entry_three_fields() {
    let v = NestedValue::List(vec![
        scalar(b"1-0"),
        NestedValue::List(vec![scalar(b"data"), scalar(&[1]), scalar(&[2])]),
    ]);
    match StreamMessage::from_redis_value(&v) {
        Err(StreamError::TypeError { expected, found }) => {
            assert_eq!(expected, Shape::ListOfLen(2));
            assert_eq!(found, Shape::ListOfLen(3));
        },
        other => panic!("expected TypeError, got {:?}", other),
    }
}

#[test]
fn decode_entry_shape_errors() {
    assert!(matches!(
        StreamMessage::from_redis_value(&NestedValue::Nil),
        Err(StreamError::TypeError { expected: Shape::List, found: Shape::Nil })
    ));
    let v = NestedValue::List(vec![NestedValue::Nil, NestedValue::Nil]);
    assert!(matches!(
        StreamMessage::from_redis_value(&v),
        Err(StreamError::TypeError { expected: Shape::Scalar, found: Shape::Nil })
    ));
}

#[test]
fn decode_grouped_nil_is_empty() {
    let g = StreamMessageByStreamKey::from_redis_value(&NestedValue::Nil).unwrap();
    assert!(g.0.is_empty());
}

#[test]
fn decode_grouped_reply() {
    let reply = NestedValue::List(vec![
        NestedValue::List(vec![
            scalar(b"af:w:o:updates"),
            NestedValue::List(vec![entry("1-0", "data", &[1]), entry("1-1", "data", &[2])]),
        ]),
        NestedValue::List(vec![
            scalar(b"af:w:p:updates"),
            NestedValue::List(vec![entry("2-0", "data", &[3])]),
        ]),
        NestedValue::List(vec![
            scalar(b"af:w:o:updates"),
            NestedValue::List(vec![entry("3-0", "data", &[4])]),
        ]),
    ]);
    let g = StreamMessageByStreamKey::from_redis_value(&reply).unwrap();
    assert_eq!(g.0.len(), 2);
    assert_eq!(g.0[0].0, "af:w:o:updates");
    let ids: Vec<MessageId> = g.0[0].1.iter().map(|m| m.id).collect();
    assert_eq!(
        ids,
        vec![MessageId::new(1, 0), MessageId::new(1, 1), MessageId::new(3, 0)]
    );
    assert_eq!(g.0[1].0, "af:w:p:updates");
    assert_eq!(g.0[1].1[0].data, vec![3]);
}

#[test]
fn decode_grouped_bad_entry_fails() {
    let reply = NestedValue::List(vec![NestedValue::List(vec![
        scalar(b"key"),
        NestedValue::List(vec![entry("not-an-id", "data", &[1])]),
    ])]);
    assert!(matches!(
        StreamMessageByStreamKey::from_redis_value(&reply),
        Err(StreamError::NumericParseError)
    ));
}

#[test]
fn redis_string_and_verify_field() {
    let s = RedisString::from_redis_value(&scalar("caf\u{e9}".as_bytes())).unwrap();
    assert_eq!(s.into_string(), "caf\u{e9}");
    assert!(matches!(
        RedisString::from_redis_value(&NestedValue::Nil),
        Err(StreamError::TypeError { expected: Shape::Scalar, found: Shape::Nil })
    ));
    assert!(matches!(
        RedisString::from_redis_value(&scalar(&[0xff])),
        Err(StreamError::Utf8Error)
    ));
    assert!(verify_field(&scalar(b"data"), "data").is_ok());
    assert!(matches!(
        verify_field(&scalar(b"other"), "data"),
        Err(StreamError::UnexpectedValue(_))
    ));
}

#[test]
fn stream_binary_tuple_array() {
    let b = StreamBinary(vec![1, 2, 3]);
    let [(name, bytes)] = b.into_tuple_array();
    assert_eq!(name, "data");
    assert_eq!(bytes, vec![1, 2, 3]);
}

#[test]
fn parse_collab_origin_empty() {
    let expected = CollabOrigin::Empty;
    let actual = collab_origin_from_str(&expected.to_text()).unwrap();
    assert_eq!(actual, expected);
}

#[test]
fn parse_collab_origin_server() {
    let expected = CollabOrigin::Server;
    let actual = collab_origin_from_str(&expected.to_text()).unwrap();
    assert_eq!(actual, expected);
}

#[test]
fn parse_collab_origin_client() {
    let expected = CollabOrigin::Client(CollabClient {
        uid: 123,
        device_id: "test-device".to_string(),
    });
    let actual = collab_origin_from_str(&expected.to_text()).unwrap();
    assert_eq!(actual, expected);
}

#[test]
fn origin_text_is_canonical() {
    assert_eq!(CollabOrigin::Empty.to_text(), "");
    assert_eq!(CollabOrigin::Server.to_text(), "server");
    let c = CollabOrigin::Client(CollabClient {
        uid: -42,
        device_id: "phone".to_string(),
    });
    assert_eq!(c.to_text(), "uid:-42|device_id:phone");
}

#[test]
fn parse_collab_origin_tokens_in_either_order() {
    let expected = CollabOrigin::Client(CollabClient {
        uid: 123,
        device_id: "dev-1".to_string(),
    });
    assert_eq!(
        collab_origin_from_str("uid:123|device_id:dev-1").unwrap(),
        expected
    );
    assert_eq!(
        collab_origin_from_str("device_id:dev-1|uid:123").unwrap(),
        expected
    );
    assert_eq!(
        collab_origin_from_str("uid:-7|device_id:").unwrap(),
        CollabOrigin::Client(CollabClient { uid: -7, device_id: String::new() })
    );
}

#[test]
fn parse_collab_origin_errors() {
    assert!(matches!(
        collab_origin_from_str("garbage"),
        Err(StreamError::UnexpectedValue(_))
    ));
    assert!(matches!(
        collab_origin_from_str("uid:abc|device_id:x"),
        Err(StreamError::NumericParseError)
    ));
    assert!(matches!(
        collab_origin_from_str("uid:1|device_id:x|extra"),
        Err(StreamError::UnexpectedValue(_))
    ));
    assert!(matches!(
        collab_origin_from_str("uid:1|wrong:x"),
        Err(StreamError::UnexpectedValue(_))
    ));
}
