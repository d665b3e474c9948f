use nexus_core::protocol::SyncMessage;
use nexus_core::sync::SyncManager;
use nexus_core::{OpType, OplogEntry, Resolver};

fn manager(user: u128, device: u128) -> SyncManager {
    SyncManager::new(user, device, vec![Resolver { table: "items".to_string(), key_field: "id".to_string() }])
}

fn op(id: u128, device_id: u128, ts: i64, key: &str) -> OplogEntry {
    OplogEntry {
        id,
        device_id,
        timestamp: ts,
        table: "items".to_string(),
        op_type: OpType::Create,
        data: format!(r#"{{"id":"{}"}}"#, key),
    }
}

#[test]
fn announce_from_same_account_registers_peer_and_requests_sync() {
    let mut m = manager(1, 10);
    let reply = m.on_announce("peer-b".to_string(), 1, 20, Some("/ip4/10.0.0.2/tcp/4001".to_string()), 500);
    match reply {
        Some(SyncMessage::RequestSync { user_id, since_timestamp }) => {
            assert_eq!(user_id, 1);
            assert_eq!(since_timestamp, 0);
        }
        other => panic!("unexpected {:?}", other),
    }
    let p = m.peer(20).unwrap();
    assert_eq!(p.peer_id, "peer-b");
    assert_eq!(p.address.as_deref(), Some("/ip4/10.0.0.2/tcp/4001"));
    assert_eq!(p.last_seen, 500);
    assert!(!p.stale);
}

#[test]
fn announce_from_other_account_or_self_is_ignored() {
    let mut m = manager(1, 10);
    assert!(m.on_announce("x".to_string(), 2, 20, None, 1).is_none());
    assert!(m.on_announce("me".to_string(), 1, 10, None, 1).is_none());
    assert!(m.peer(20).is_none());
    assert!(m.peer(10).is_none());
}

#[test]
fn batch_raises_watermark_and_next_request_uses_it() {
    let mut m = manager(1, 10);
    m.on_announce("peer-b".to_string(), 1, 20, None, 100);
    let batch = vec![op(1, 20, 7_000, "a"), op(2, 20, 9_000, "b"), op(3, 20, 8_000, "c")];
    m.on_op_batch(20, &batch, 1, 200);
    assert_eq!(m.peer(20).unwrap().watermark, 9_000);
    assert_eq!(m.store().row_count(), 3);
    match m.on_announce("peer-b".to_string(), 1, 20, None, 300) {
        Some(SyncMessage::RequestSync { since_timestamp, .. }) => assert_eq!(since_timestamp, 9_000),
        other => panic!("unexpected {:?}", other),
    }
}

#[test]
fn request_sync_answers_batches_then_ack() {
    let mut m = manager(1, 10);
    for i in 0..5u128 {
        m.apply_local(&op(100 + i, 10, 1_000 + i as i64, &format!("k{}", i)));
    }
    let out = m.on_request_sync(1, 1_001, 1 << 20);
    assert_eq!(out.len(), 2);
    match &out[0] {
        SyncMessage::OpBatch { operations } => {
            let ts: Vec<i64> = operations.iter().map(|o| o.timestamp).collect();
            assert_eq!(ts, vec![1_002, 1_003, 1_004]);
        }
        other => panic!("unexpected {:?}", other),
    }
    match &out[1] {
        SyncMessage::Ack { op_id, timestamp } => {
            assert_eq!(*op_id, 104);
            assert_eq!(*timestamp, 1_004);
        }
        other => panic!("unexpected {:?}", other),
    }
    assert!(m.on_request_sync(2, 0, 1 << 20).is_empty());
}

#[test]
fn request_sync_with_nothing_new_only_acks() {
    let m = manager(1, 10);
    let out = m.on_request_sync(1, 55, 1024);
    assert_eq!(out.len(), 1);
    match &out[0] {
        SyncMessage::Ack { op_id, timestamp } => {
            assert_eq!(*op_id, 0);
            assert_eq!(*timestamp, 55);
        }
        other => panic!("unexpected {:?}", other),
    }
}

#[test]
fn timer_marks_silent_peers_stale_and_heartbeat_refreshes() {
    let mut m = manager(1, 10);
    m.on_announce("b".to_string(), 1, 20, None, 1_000);
    m.on_announce("c".to_string(), 1, 30, None, 9_000);
    let hb = m.on_timer(10_000, 5, 2_000);
    assert!(matches!(hb, SyncMessage::Heartbeat { device_id: 10, .. }));
    assert!(m.peer(20).unwrap().stale);
    assert!(!m.peer(30).unwrap().stale);
    m.on_heartbeat(20, 10_500);
    let p = m.peer(20).unwrap();
    assert!(!p.stale);
    assert_eq!(p.last_seen, 10_500);
}

#[test]
fn two_managers_converge_through_the_protocol() {
    let mut a = manager(1, 10);
    let mut b = manager(1, 20);
    for i in 0..20u128 {
        let ta = a.stamp_at(1_000 + i as u64);
        a.apply_local(&op(1_000 + i, 10, ta, &format!("a{}", i)));
        let tb = b.stamp_at(1_000 + i as u64);
        b.apply_local(&op(2_000 + i, 20, tb, &format!("b{}", i)));
    }
    a.on_announce("b".to_string(), 1, 20, None, 1);
    b.on_announce("a".to_string(), 1, 10, None, 1);
    for msg in a.on_request_sync(1, 0, 600) {
        if let SyncMessage::OpBatch { operations } = msg {
            b.on_op_batch(10, &operations, 2_000, 2);
        }
    }
    for msg in b.on_request_sync(1, 0, 600) {
        if let SyncMessage::OpBatch { operations } = msg {
            a.on_op_batch(20, &operations, 2_000, 2);
        }
    }
    assert_eq!(a.store().row_count(), 40);
    assert_eq!(b.store().row_count(), 40);
    let t = a.stamp_at(0);
    assert!(t > b.peer(10).unwrap().watermark);
}

#[test]
fn announce_and_request_messages_carry_identity() {
    let m = manager(7, 8);
    match m.announce_presence("me".to_string()) {
        SyncMessage::Announce { user_id, device_id, peer_id } => {
            assert_eq!((user_id, device_id), (7, 8));
            assert_eq!(peer_id, "me");
        }
        other => panic!("unexpected {:?}", other),
    }
    assert!(matches!(m.request_sync(33), SyncMessage::RequestSync { user_id: 7, since_timestamp: 33 }));
}

#[test]
fn peer_list_holds_every_entry() {
    let mut m = manager(1, 10);
    m.on_announce("b".to_string(), 1, 20, None, 5);
    m.on_announce("c".to_string(), 1, 30, None, 6);
    m.on_announce("b2".to_string(), 1, 20, None, 7);
    let mut ids: Vec<(u128, String)> = m.peer_list().into_iter().map(|p| (p.device_id, p.peer_id)).collect();
    ids.sort();
    assert_eq!(ids, vec![(20, "b2".to_string()), (30, "c".to_string())]);
}
