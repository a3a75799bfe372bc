use collab_stream::error::StreamError;
use collab_stream::flags::UpdateFlags;
use collab_stream::nested::NestedValue;
use collab_stream::origin::{CollabClient, CollabOrigin};
use collab_stream::update_event::CollabUpdateEvent;
use collab_stream::updates::{AwarenessStreamUpdate, CollabStreamUpdate};
use yrs::{Doc, ReadTxn, StateVector, Transact};

fn scalar(bytes: &[u8]) -> NestedValue {
    NestedValue::Scalar(bytes.to_vec())
}

fn fields(entries: &[(&str, NestedValue)]) -> Vec<(String, NestedValue)> {
    entries
        .iter()
        .map(|(k, v)| {
            (
                k.to_string(),
                match v {
                    NestedValue::Nil => NestedValue::Nil,
                    NestedValue::Scalar(b) => NestedValue::Scalar(b.clone()),
                    NestedValue::List(_) => panic!("flat fields only"),
                },
            )
        })
        .collect()
}

#[test]
fn test_collab_update_event_decoding() {
    let encoded_update = vec![1, 2, 3, 4, 5];
    let event = CollabUpdateEvent::UpdateV1 {
        encode_update: encoded_update.clone(),
    };
    let encoded = event.encode();
    let decoded = CollabUpdateEvent::decode(&encoded).unwrap();
    assert_eq!(event, decoded);
}

#[test]
fn update_event_encoding_matches_protobuf() {
    let payload: Vec<u8> = (0u8..=255).cycle().take(300).collect();
    let event = CollabUpdateEvent::UpdateV1 {
        encode_update: payload.clone(),
    };
    let mut expected: Vec<u8> = Vec::new();
    prost::encoding::bytes::encode(1u32, &payload, &mut expected);
    assert_eq!(event.encode(), expected);
}

#[test]
fn update_event_legacy_fallback() {
    // the legacy serialization: a zero variant index, a length, the bytes
    let payload = vec![1u8, 2, 3, 4, 5];
    let legacy = bincode::serialize(&(0u32, payload.clone())).unwrap();
    assert_ne!(legacy[0], 0x0a, "legacy buffers do not look like the primary form");
    let decoded = CollabUpdateEvent::decode(&legacy).unwrap();
    assert_eq!(
        decoded,
        CollabUpdateEvent::UpdateV1 { encode_update: payload }
    );
}

#[test]
fn update_event_unknown_fields_are_skipped() {
    let event = CollabUpdateEvent::UpdateV1 {
        encode_update: vec![1, 2, 3],
    };
    // a varint record of an unknown field (number 2), before or after
    let unknown = [0x10u8, 0x05];
    let mut trailing = event.encode();
    trailing.extend_from_slice(&unknown);
    assert_eq!(CollabUpdateEvent::decode(&trailing).unwrap(), event);
    let mut leading = unknown.to_vec();
    leading.extend_from_slice(&event.encode());
    assert_eq!(CollabUpdateEvent::decode(&leading).unwrap(), event);
}

#[test]
fn update_event_repeated_field_last_wins() {
    let first = CollabUpdateEvent::UpdateV1 { encode_update: vec![9] };
    let second = CollabUpdateEvent::UpdateV1 { encode_update: vec![1, 2, 3] };
    let mut buf = first.encode();
    buf.extend_from_slice(&second.encode());
    assert_eq!(CollabUpdateEvent::decode(&buf).unwrap(), second);
}

#[test]
fn update_event_decode_failure() {
    assert!(matches!(
        CollabUpdateEvent::decode(&[0xff, 0x01, 0x02]),
        Err(StreamError::EncodingError)
    ));
}

#[test]
fn stream_keys_are_stable() {
    assert_eq!(CollabStreamUpdate::stream_key("w1", "o1"), "af:w1:o1:updates");
    assert_eq!(
        AwarenessStreamUpdate::stream_key("w1", "o1"),
        "af:w1:o1:awareness"
    );
}

#[test]
fn stream_update_from_fields_defaults() {
    let fs = fields(&[("data", scalar(&[1, 2, 3]))]);
    let u = CollabStreamUpdate::try_from_fields(&fs).unwrap();
    assert_eq!(u.data, vec![1, 2, 3]);
    assert_eq!(u.sender, CollabOrigin::Empty);
    assert!(u.flags.is_v1_encoded() && !u.flags.is_compressed());
}

#[test]
fn stream_update_from_fields_full() {
    let fs = fields(&[
        ("sender", scalar(b"uid:42|device_id:laptop")),
        ("flags", scalar(b"2")),
        ("data", scalar(&[7, 7])),
    ]);
    let u = CollabStreamUpdate::try_from_fields(&fs).unwrap();
    assert_eq!(
        u.sender,
        CollabOrigin::Client(CollabClient { uid: 42, device_id: "laptop".to_string() })
    );
    assert!(u.flags.is_compressed());
    assert!(u.flags.is_v1_encoded());
    assert_eq!(u.data, vec![7, 7]);
}

#[test]
fn stream_update_flags_leniency() {
    // an unparseable flags byte is tolerated as 0, never an error
    let fs = fields(&[("flags", scalar(b"garbage")), ("data", scalar(&[1]))]);
    let u = CollabStreamUpdate::try_from_fields(&fs).unwrap();
    assert!(u.flags.is_v1_encoded() && !u.flags.is_compressed());
}

#[test]
fn stream_update_missing_data_is_hard_error() {
    let fs = fields(&[("sender", scalar(b"server"))]);
    match CollabStreamUpdate::try_from_fields(&fs) {
        Err(StreamError::UnexpectedValue(name)) => assert_eq!(name, "data"),
        other => panic!("expected UnexpectedValue, got {:?}", other),
    }
    match AwarenessStreamUpdate::try_from_fields(&fs) {
        Err(StreamError::UnexpectedValue(name)) => assert_eq!(name, "data"),
        other => panic!("expected UnexpectedValue, got {:?}", other),
    }
}

#[test]
fn stream_update_bad_sender_is_error() {
    let fs = fields(&[("sender", scalar(b"nonsense")), ("data", scalar(&[1]))]);
    assert!(matches!(
        CollabStreamUpdate::try_from_fields(&fs),
        Err(StreamError::UnexpectedValue(_))
    ));
}

#[test]
fn awareness_update_from_fields() {
    let fs = fields(&[("sender", scalar(b"server")), ("data", scalar(&[5, 6]))]);
    let u = AwarenessStreamUpdate::try_from_fields(&fs).unwrap();
    assert_eq!(u.sender, CollabOrigin::Server);
    assert_eq!(u.data, vec![5, 6]);
}

fn sample_v1_delta() -> Vec<u8> {
    let doc = Doc::new();
    {
        let text = doc.get_or_insert_text("body");
        let mut txn = doc.transact_mut();
        yrs::Text::insert(&text, &mut txn, 0, "hello");
    }
    let txn = doc.transact();
    txn.encode_state_as_update_v1(&StateVector::default())
}

#[test]
fn compressed_update_decodes_like_uncompressed() {
    let delta = sample_v1_delta();
    let compressed = zstd::encode_all(&delta[..], 0).unwrap();
    assert_ne!(compressed, delta);

    let plain = CollabStreamUpdate::new(delta.clone(), CollabOrigin::Empty, UpdateFlags::from(0u8));
    let packed = CollabStreamUpdate::new(compressed, CollabOrigin::Empty, UpdateFlags::from(2u8));

    // both hand the CRDT decoder the same delta bytes
    assert_eq!(plain.update_bytes().unwrap(), delta);
    assert_eq!(packed.update_bytes().unwrap(), delta);

    assert!(plain.into_update().is_ok());
    assert!(packed.into_update().is_ok());
}

#[test]
fn v2_encoded_update_decodes() {
    let doc = Doc::new();
    {
        let text = doc.get_or_insert_text("body");
        let mut txn = doc.transact_mut();
        yrs::Text::insert(&text, &mut txn, 0, "hi");
    }
    let delta_v2 = doc.transact().encode_state_as_update_v2(&StateVector::default());
    let u = CollabStreamUpdate::new(delta_v2, CollabOrigin::Empty, UpdateFlags::from(1u8));
    assert!(u.into_update().is_ok());

    let bad = CollabStreamUpdate::new(Vec::new(), CollabOrigin::Empty, UpdateFlags::from(1u8));
    assert!(matches!(bad.into_update(), Err(StreamError::EncodingError)));
}

#[test]
fn truncated_v2_delta_fails_cleanly() {
    // a malformed segment table is rejected before the external decoder
    // would walk past a bound
    let bad = CollabStreamUpdate::new(
        vec![0xfe, 0xff],
        CollabOrigin::Empty,
        UpdateFlags::from(1u8),
    );
    assert!(matches!(bad.into_update(), Err(StreamError::EncodingError)));
    let bad = CollabStreamUpdate::new(
        vec![0x0a, 1, 2, 3, 4, 5, 6, 7, 8, 9, 10, 11, 12, 13, 14],
        CollabOrigin::Empty,
        UpdateFlags::from(1u8),
    );
    assert!(matches!(bad.into_new_update(), Err(StreamError::EncodingError)));
}

#[test]
fn corrupt_compressed_update_fails_loudly() {
    let u = CollabStreamUpdate::new(
        vec![1, 2, 3],
        CollabOrigin::Empty,
        UpdateFlags::from(2u8),
    );
    assert!(matches!(
        u.update_bytes(),
        Err(StreamError::DecompressionError)
    ));
    assert!(matches!(u.into_update(), Err(StreamError::DecompressionError)));
}

#[test]
fn garbage_delta_fails_decoding() {
    let u = CollabStreamUpdate::new(
        vec![0xfe, 0xff, 0x00],
        CollabOrigin::Empty,
        UpdateFlags::from(0u8),
    );
    assert!(matches!(u.into_new_update(), Err(StreamError::EncodingError)));
}
