use nexus_core::protocol::{decode_sync_message, encode_sync_message, CodecError, SyncMessage};
use nexus_core::sync::partition_batches;
use nexus_core::{OpType, OplogEntry};

fn op(id: u128, ts: i64, data: &str) -> OplogEntry {
    OplogEntry { id, device_id: 9, timestamp: ts, table: "items".to_string(), op_type: OpType::Update, data: data.to_string() }
}

fn round_trip(m: &SyncMessage) -> SyncMessage {
    let bytes = encode_sync_message(m).unwrap();
    decode_sync_message(&bytes).unwrap().unwrap()
}

#[test]
fn test_sync_message_encode_decode() {
    let user_id = uuid::Uuid::new_v4().as_u128();
    let device_id = uuid::Uuid::new_v4().as_u128();

    let announce_msg = SyncMessage::Announce { user_id, device_id, peer_id: "test_peer_id".to_string() };
    let encoded = encode_sync_message(&announce_msg).unwrap();
    let decoded = decode_sync_message(&encoded).unwrap().unwrap();
    match decoded {
        SyncMessage::Announce { user_id: uid, device_id: did, peer_id } => {
            assert_eq!(uid, user_id);
            assert_eq!(did, device_id);
            assert_eq!(peer_id, "test_peer_id");
        }
        _ => panic!("Expected Announce message"),
    }

    let timestamp = chrono::Utc::now().timestamp();
    let request_msg = SyncMessage::RequestSync { user_id, since_timestamp: timestamp };
    let encoded = encode_sync_message(&request_msg).unwrap();
    let decoded = decode_sync_message(&encoded).unwrap().unwrap();
    match decoded {
        SyncMessage::RequestSync { user_id: uid, since_timestamp: ts } => {
            assert_eq!(uid, user_id);
            assert!((ts - timestamp).abs() < 2);
        }
        _ => panic!("Expected RequestSync message"),
    }
}

#[test]
fn every_variant_round_trips() {
    match round_trip(&SyncMessage::Heartbeat { device_id: u128::MAX, timestamp: i64::MIN }) {
        SyncMessage::Heartbeat { device_id, timestamp } => {
            assert_eq!(device_id, u128::MAX);
            assert_eq!(timestamp, i64::MIN);
        }
        _ => panic!("Expected Heartbeat message"),
    }
    match round_trip(&SyncMessage::Ack { op_id: 77, timestamp: -1 }) {
        SyncMessage::Ack { op_id, timestamp } => {
            assert_eq!(op_id, 77);
            assert_eq!(timestamp, -1);
        }
        _ => panic!("Expected Ack message"),
    }
    let ops = vec![op(1, 10, r#"{"id":"é"}"#), op(2, 20, "")];
    match round_trip(&SyncMessage::OpBatch { operations: ops }) {
        SyncMessage::OpBatch { operations } => {
            assert_eq!(operations.len(), 2);
            assert_eq!(operations[0].id, 1);
            assert_eq!(operations[0].data, r#"{"id":"é"}"#);
            assert_eq!(operations[1].timestamp, 20);
            assert_eq!(operations[1].table, "items");
            assert_eq!(operations[1].op_type, OpType::Update);
        }
        _ => panic!("Expected OpBatch message"),
    }
    match round_trip(&SyncMessage::OpBatch { operations: vec![] }) {
        SyncMessage::OpBatch { operations } => assert!(operations.is_empty()),
        _ => panic!("Expected OpBatch message"),
    }
}

#[test]
fn heartbeat_has_exact_bytes() {
    let bytes = encode_sync_message(&SyncMessage::Heartbeat { device_id: 1, timestamp: 2 }).unwrap();
    let mut expected = vec![4u8, 1, 0, 0, 0, 16];
    expected.extend_from_slice(&[0; 15]);
    expected.push(1);
    expected.extend_from_slice(&[2, 0, 0, 0, 8, 0, 0, 0, 0, 0, 0, 0, 2]);
    assert_eq!(bytes, expected);
}

#[test]
fn unknown_variant_is_ignored() {
    assert!(decode_sync_message(&[9, 1, 2, 3]).unwrap().is_none());
}

#[test]
fn empty_and_truncated_input_is_malformed() {
    assert_eq!(decode_sync_message(&[]).unwrap_err(), CodecError::Malformed);
    let bytes = encode_sync_message(&SyncMessage::Ack { op_id: 1, timestamp: 1 }).unwrap();
    assert_eq!(decode_sync_message(&bytes[..bytes.len() - 1]).unwrap_err(), CodecError::Malformed);
}

#[test]
fn missing_required_field_is_malformed() {
    // A heartbeat carrying only its device id.
    let mut bytes = vec![4u8, 1, 0, 0, 0, 16];
    bytes.extend_from_slice(&[0; 16]);
    assert_eq!(decode_sync_message(&bytes).unwrap_err(), CodecError::Malformed);
}

#[test]
fn unknown_field_is_ignored() {
    let mut bytes = encode_sync_message(&SyncMessage::Ack { op_id: 3, timestamp: 4 }).unwrap();
    bytes.extend_from_slice(&[99, 0, 0, 0, 2, 7, 7]);
    match decode_sync_message(&bytes).unwrap().unwrap() {
        SyncMessage::Ack { op_id, timestamp } => {
            assert_eq!(op_id, 3);
            assert_eq!(timestamp, 4);
        }
        _ => panic!("Expected Ack message"),
    }
}

#[test]
fn wrong_field_width_is_malformed() {
    // Ack whose op id field holds 3 bytes.
    let bytes = vec![5u8, 1, 0, 0, 0, 3, 1, 2, 3, 2, 0, 0, 0, 8, 0, 0, 0, 0, 0, 0, 0, 1];
    assert_eq!(decode_sync_message(&bytes).unwrap_err(), CodecError::Malformed);
}

#[test]
fn batches_respect_the_size_limit_and_keep_order() {
    let ops: Vec<OplogEntry> = (0..10).map(|i| op(i, i as i64, "0123456789")).collect();
    let one = encode_sync_message(&SyncMessage::OpBatch { operations: vec![ops[0].clone()] }).unwrap().len();
    let limit = 1 + 3 * (one - 1);
    let batches = partition_batches(ops.clone(), limit);
    assert_eq!(batches.len(), 4);
    let flat: Vec<u128> = batches.iter().flatten().map(|o| o.id).collect();
    assert_eq!(flat, (0..10).collect::<Vec<u128>>());
    for b in &batches {
        let size = encode_sync_message(&SyncMessage::OpBatch { operations: b.clone() }).unwrap().len();
        assert!(size <= limit);
    }
}

#[test]
fn oversized_operation_travels_alone() {
    let ops = vec![op(1, 1, "a"), op(2, 2, &"x".repeat(500)), op(3, 3, "b")];
    let batches = partition_batches(ops, 200);
    assert_eq!(batches.len(), 3);
    assert_eq!(batches[1].len(), 1);
    assert_eq!(batches[1][0].id, 2);
}
